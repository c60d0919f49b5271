# molt-engine

The engine of a republic: a small group of members that decides by threshold
signatures, chats, shares files and keeps a wiki. What is decided is sealed into
a chain of blocks that anybody can verify without trusting whoever hands it over.

The crate is written in Verus. Every function in `src/` carries a contract that
Verus proves; what the engine promises as a whole stands next to the code as
public proof functions.

## Layout

- `src/` is the verified library.
  - The chain: `model`, `payload`, `canonical` (the bytes that are signed and
    hashed), `identity` (hashes and signatures), `signers`, `fold`, `walk`
    (verification), `fault` (refusals in words), `history`, `wiki_tree`,
    `wiki_export`, `wiki_base`.
  - A holder of the chain: `state`, `table`, `own_chain`, `projection`, `relays`,
    `read_chain`, `governance`, `votes`, `sealing`, `serving`, `membership`,
    `recovery`, `rekey`, `checkpoint`, `sync`, `patches`, `peers`.
  - The chat: `chat_model`, `chat`, `chat_commands`, `chat_errors`, `compaction`.
  - The owner of the configuration file: `config_store`.
  - What holds of all of it: `chain_laws`, `holder_laws`, `state_laws`,
    `card_laws`, `seal_laws`, `silence_laws`, `patch_laws`, `quiet_laws`, `sync_laws`,
    `catchup_laws`, `list_laws`, `chat_laws`, `compaction_laws`.
- `tests/` runs the library on real keys and real chains.
- `app/` is the host side: the task that owns the configuration file, the wire
  formats, and the loop that does what the library asks for.

## How a state changes

Each type has a model (`State` has `StateV`), and a command's contract says which
model it leads to. A command never talks to a disk or a network: what has to be
done outside is added to the state's list of effects, in order, and the host works
that list off. Where what follows depends on how it went, the host says so: a block
that was sealed here is handed over to be written with the whole chain, and only
once the host reports that it is on disk is it told to the members. Where the wiki
base moves, the host says which open patches it left behind; votes on patches are
moved, and held blocks applied, after that.

## What is trusted

Seven small functions call other crates, and their contracts are taken on trust:
SHA-256, Ed25519 signing, verifying and public keys, hexadecimal in both
directions, and the operating system's random numbers. One more writes a string
the way the standard library quotes it. Of hashes and signatures nothing is
claimed beyond what their crates show: that a hash has 32 bytes, and that a
signature verifies under the key that made it.
