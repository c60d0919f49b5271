//! What holds of every chain, on chains that were built here.
#![allow(dead_code, unused_imports)]

use molt_engine::canonical::{
    approval_bytes, checkpoint_canonical_bytes, restore_consent_bytes, seat_proof_bytes,
    GENESIS_PREV,
};
use molt_engine::checkpoint::collect_run;
use molt_engine::fold::{checkpoint_state, checkpoint_state_hash, fold_one, fold_state};
use molt_engine::identity::{
    content_hash, identity_public, identity_sign, identity_verify, republic_id, SigningKey,
};
use molt_engine::membership::membership_payload;
use molt_engine::model::{
    Anchor, AppliedEntry, AppliedGroup, ChainBlock, ChainChange, CheckpointState, MemberIdentity,
    MembershipOp, RelayDeclaration, RosterAttestation, Surface,
};
use molt_engine::payload::{Field, Payload};
use molt_engine::signers::{block_hash, ChainHead};
use molt_engine::state::{
    Effect, Event, HeightHash, PendingRecovery, ProposalRecord, ProposalState,
    RecoverProgressReport, ReplicaState, State, WorkspaceEvent,
};
use molt_engine::table::Table;
use molt_engine::walk::{
    sealed_roster_from_blob, sealed_roster_from_genesis, verify_chain, verify_served,
    verify_suffix_chain,
};

use molt_engine::fault::Fault;
use molt_engine::history::{
    chain_block_view, effective_relays_of_served, find_anchor, find_declaration, fold_anchors,
    fold_pool_edit,
};
use molt_engine::own_chain::largest;
use molt_engine::peers::LastSeen;
use molt_engine::state::PeerHeight;
use molt_engine::signers::{block_signers, valid_signers};
use molt_engine::sync::served_blob_fits;
use molt_engine::text::{decimal, split_words, text_before};
use molt_engine::walk::{walk_chain, walk_suffix_chain};
use std::collections::BTreeSet;

/// Builds real threshold-signed chains: the founding is sealed by everybody,
/// later blocks by the named members.
#[derive(Clone)]
struct Builder {
    republic_id: String,
    keys: Vec<(String, SigningKey)>,
    blocks: Vec<ChainBlock>,
    head_hash: String,
}

impl Builder {
    fn new(members: &[&str], rule_m: u8) -> Builder {
        Builder::new_on_relays(members, rule_m, Vec::new())
    }

    fn new_on_relays(members: &[&str], rule_m: u8, relays: Vec<String>) -> Builder {
        let mut keys: Vec<(String, SigningKey)> = Vec::new();
        let mut identities: Vec<MemberIdentity> = Vec::new();
        for (i, m) in members.iter().enumerate() {
            let sk = SigningKey { secret: [u8::try_from(i + 1).unwrap_or(1); 32] };
            identities.push(MemberIdentity {
                member: (*m).to_string(),
                identity_pk: identity_public(&sk),
                nostr_pk: "cc".repeat(32),
            });
            keys.push(((*m).to_string(), sk));
        }
        let rule_n = u8::try_from(members.len()).expect("small roster");
        let republic_id = republic_id("Chess Club", rule_m, rule_n, &identities);
        let change = ChainChange::Genesis {
            name: "Chess Club".to_string(),
            republic_id: republic_id.clone(),
            rule_m,
            rule_n,
            identities,
            agenda: "play chess".to_string(),
            features: None,
            relays,
        };
        let mut b = Builder {
            republic_id,
            keys,
            blocks: Vec::new(),
            head_hash: GENESIS_PREV.to_string(),
        };
        let block = b.seal(0, change, members);
        b.push(block);
        b
    }

    /// Signs `change` at `height` with each named member.
    fn seal(&self, height: u64, change: ChainChange, signers: &[&str]) -> ChainBlock {
        let bytes = approval_bytes(&self.republic_id, height, &change);
        let sigs = signers
            .iter()
            .map(|name| RosterAttestation {
                member: (*name).to_string(),
                sig: identity_sign(self.key(name), &bytes),
            })
            .collect();
        ChainBlock { height, prev: self.head_hash.clone(), change, sigs }
    }

    fn push(&mut self, block: ChainBlock) {
        self.head_hash = block_hash(&self.republic_id, &block);
        self.blocks.push(block);
    }

    fn next_height(&self) -> u64 {
        u64::try_from(self.blocks.len()).expect("small chain")
    }

    fn commit(&mut self, change: ChainChange, signers: &[&str]) {
        let block = self.seal(self.next_height(), change, signers);
        self.push(block);
    }

    /// Commits a note signed by `signers` at the next height.
    fn commit_applied(&mut self, proposal_id: u64, signers: &[&str]) {
        self.commit(
            ChainChange::Applied {
                proposal_id,
                surface: Surface::Memory,
                payload: note(proposal_id),
            },
            signers,
        );
    }

    /// Commits an edit of the organization.
    fn commit_org(&mut self, proposal_id: u64, op: &str, value: &str, signers: &[&str]) {
        self.commit(
            ChainChange::Applied {
                proposal_id,
                surface: Surface::Organization,
                payload: edit(op, value),
            },
            signers,
        );
    }

    /// Commits a wiki patch that adds a document.
    fn commit_wiki(&mut self, proposal_id: u64, path: &str, body: &str, signers: &[&str]) {
        self.commit(
            ChainChange::Applied {
                proposal_id,
                surface: Surface::Memory,
                payload: edit("wiki_patch", &new_file_patch(path, body)),
            },
            signers,
        );
    }

    /// Commits a returned seat that names a new transport key.
    fn commit_restored(&mut self, member: &str, nostr_pk: &str, signers: &[&str]) {
        let change = restored(member, &self.pk(member), Some(nostr_pk), None);
        self.commit(change, signers);
    }

    fn key(&self, member: &str) -> &SigningKey {
        &self.keys.iter().find(|(m, _)| m == member).expect("known member").1
    }

    fn pk(&self, member: &str) -> String {
        identity_public(self.key(member))
    }
}

fn text(t: &str) -> Payload {
    Payload::Text(t.to_string())
}

fn object(fields: Vec<(&str, Payload)>) -> Payload {
    Payload::Object(
        fields
            .into_iter()
            .map(|(name, value)| Field { name: name.to_string(), value })
            .collect(),
    )
}

fn note(id: u64) -> Payload {
    object(vec![("op", text("add_note")), ("id", Payload::Count(id))])
}

fn edit(op: &str, value: &str) -> Payload {
    object(vec![("op", text(op)), ("value", text(value))])
}

fn new_file_patch(path: &str, body: &str) -> String {
    let lines: Vec<&str> = body.split('\n').collect();
    let mut patch = format!(
        "diff --git a/{path} b/{path}\nnew file mode 100644\n--- /dev/null\n+++ b/{path}\n@@ -0,0 +1,{} @@\n",
        lines.len()
    );
    for l in lines {
        patch.push('+');
        patch.push_str(l);
        patch.push('\n');
    }
    patch
}

fn restored(
    member: &str,
    identity_pk: &str,
    nostr_pk: Option<&str>,
    consent: Option<String>,
) -> ChainChange {
    ChainChange::Membership {
        op: MembershipOp::Restored,
        member: member.to_string(),
        identity_pk: identity_pk.to_string(),
        nostr_pk: nostr_pk.map(str::to_string),
        relays: Vec::new(),
        consent,
    }
}

/// A seat's state that roots in the founding of `b` and holds `chain`.
fn peer_of(member: &str, roster: &[&str], b: &Builder, chain: Vec<ChainBlock>) -> State {
    let mut peer = State::new();
    peer.now = 1_751_000_000;
    peer.replica = Some(ReplicaState {
        name: "Chess Club".to_string(),
        member: member.to_string(),
        roster: roster.iter().map(|m| m.to_string()).collect(),
        rule_m: 2,
        identities: Vec::new(),
        agenda: "play chess".to_string(),
        features: None,
        republic_id: b.republic_id.clone(),
        founded_ts: 0,
    });
    peer.adopt_chain(chain);
    peer.effects.clear();
    peer
}

fn chain_peer(member: &str, b: &Builder, chain: Vec<ChainBlock>) -> State {
    peer_of(member, &["petra", "walter"], b, chain)
}

fn chain_peer_3(member: &str, b: &Builder) -> State {
    peer_of(member, &["petra", "walter", "dora"], b, b.blocks.clone())
}

/// A peer that can also sign.
fn chain_signer(member: &str, b: &Builder, chain: Vec<ChainBlock>) -> State {
    let mut s = chain_peer(member, b, chain);
    s.identity_sk = Some(*b.key(member));
    s
}

/// A chain of exactly `len` blocks.
fn grown_chain(len: usize) -> Builder {
    let mut b = Builder::new(&["petra", "walter"], 2);
    for id in 0..len.saturating_sub(1) {
        b.commit_applied(u64::try_from(id + 100).expect("small id"), &["petra", "walter"]);
    }
    assert_eq!(b.blocks.len(), len);
    b
}

/// A returning member's consent, signed with its own key.
fn consent_for(b: &Builder, member: &str, nostr_pk: &str) -> String {
    identity_sign(
        b.key(member),
        &restore_consent_bytes(&b.republic_id, member, &b.pk(member), nostr_pk),
    )
}

fn height(s: &State) -> u64 {
    s.head.as_ref().expect("head").height
}

/// The signature that a state holds of a member for a proposal.
fn sig_of(s: &State, id: u64, member: &str) -> String {
    s.pending_sigs
        .get(id)
        .expect("pending set")
        .sigs
        .iter()
        .find(|a| a.member == member)
        .expect("signed")
        .sig
        .clone()
}

/// The entries of a surface in a summary.
fn entries_of(groups: &Vec<AppliedGroup>, surface: Surface) -> Vec<AppliedEntry> {
    groups
        .iter()
        .find(|g| g.surface == surface)
        .map(|g| g.entries.clone())
        .unwrap_or_default()
}

/// The approvals and other events that a state asked its host to send.
fn sent(s: &State) -> Vec<WorkspaceEvent> {
    s.effects
        .iter()
        .filter_map(|e| match e {
            Effect::Send { body } => Some(body.clone()),
            _ => None,
        })
        .collect()
}

/// `s` hears a membership proposal.
fn hear_membership(s: &mut State, id: u64, change: ChainChange, canonical_anchor: bool) {
    let ChainChange::Membership { op, member, identity_pk, nostr_pk, relays, consent } = change
    else {
        panic!("a membership change")
    };
    s.receive_membership_proposal(
        id,
        op,
        &member,
        &identity_pk,
        nostr_pk,
        relays,
        consent,
        canonical_anchor,
    );
}


fn cut_of(b: &Builder, upto: u64) -> (CheckpointState, ChainChange) {
    let blob = checkpoint_state(&b.blocks, upto).expect("state");
    let change = ChainChange::Checkpoint { upto, state_hash: checkpoint_state_hash(&blob) };
    (blob, change)
}

#[test]
fn content_is_hashed_with_sha_256() {
    assert_eq!(
        content_hash(b"abc"),
        "ba7816bf8f01cfea414140de5dae2223b00361a396177a9cb410ff61f20015ad"
    );
    assert_eq!(
        content_hash(b""),
        "e3b0c44298fc1c149afbf4c8996fb92427ae41e4649b934ca495991b7852b855"
    );
}

#[test]
fn identities_sign_with_ed25519() {
    // the first vector of the algorithm's specification, whose message is empty
    let mut secret = [0u8; 32];
    let seed = "9d61b19deffd5a60ba844af492ec2cc44449c5697b326919703bac031cae7f60";
    for (i, byte) in secret.iter_mut().enumerate() {
        *byte = u8::from_str_radix(&seed[2 * i..2 * i + 2], 16).expect("hex");
    }
    let key = SigningKey { secret };
    let public = "d75a980182b10ab7d54bfed3c964073a0ee172f3daa62325af021a68f707511a";
    assert_eq!(identity_public(&key), public);
    let sig = identity_sign(&key, b"");
    assert_eq!(
        sig,
        "e5564300c360ac729086e2cc806e828a84877f1eb8e5d974d873e065224901555fb8821590a33bacc61e39701cf9b46bd25bf5f0595bbe24655141438e7a100b"
    );
    assert!(identity_verify(public, b"", &sig));
    assert!(identity_verify(&public.to_uppercase(), b"", &sig), "either case reads");
    assert!(!identity_verify(public, b"x", &sig));
    assert!(!identity_verify(public, b"", &sig[2..]), "too short");
    assert!(!identity_verify("zz", b"", &sig), "no hex");
    let other = SigningKey { secret: [7; 32] };
    assert!(!identity_verify(&identity_public(&other), b"", &sig));
}

#[test]
fn extending_a_walk_is_walking_again() {
    let b = grown_chain(6);
    let mut walk = walk_chain(&b.blocks[..1]).expect("founding");
    for n in 1..b.blocks.len() {
        walk.step(&b.blocks[n]).expect("fits");
        let whole = walk_chain(&b.blocks[..=n]).expect("verifies");
        assert_eq!(walk.head, whole.head);
        assert_eq!(walk.seen, whole.seen);
        assert_eq!(walk.running, whole.running);
        assert_eq!((walk.floor, walk.folded), (whole.floor, whole.folded));
    }
}

#[test]
fn a_refused_block_leaves_the_walk_alone() {
    let mut b = grown_chain(3);
    let mut walk = walk_chain(&b.blocks).expect("verifies");
    let before = (walk.head.clone(), walk.seen.clone(), walk.running.clone(), walk.folded);
    let thin = b.seal(
        3,
        ChainChange::Applied { proposal_id: 9, surface: Surface::Memory, payload: note(9) },
        &["petra"],
    );
    assert_eq!(
        walk.step(&thin),
        Err(Fault::BelowThreshold { height: 3, have: 1, need: 2 })
    );
    assert_eq!(
        before,
        (walk.head.clone(), walk.seen.clone(), walk.running.clone(), walk.folded)
    );
    b.commit_applied(9, &["petra", "walter"]);
    walk.step(&b.blocks[3]).expect("the id was not burned");
}

#[test]
fn every_prefix_of_a_chain_verifies() {
    let b = grown_chain(5);
    for n in 1..=b.blocks.len() {
        assert_eq!(verify_chain(&b.blocks[..n]).expect("verifies").height, n as u64 - 1);
    }
}

#[test]
fn a_pruned_holder_accepts_what_a_full_one_accepts() {
    let mut b = grown_chain(4);
    let (blob, change) = cut_of(&b, 3);
    b.commit(change, &["petra", "walter"]);
    let mut full = chain_peer("petra", &b, b.blocks.clone());
    let mut pruned = chain_peer("walter", &b, Vec::new());
    pruned.set_checkpoint_blob(Some(blob.clone()));
    pruned.adopt_chain(b.blocks[4..].to_vec());
    assert_eq!(full.head, pruned.head);

    // an id that was consumed below the cut fits neither
    let replay = b.seal(
        5,
        ChainChange::Applied { proposal_id: 100, surface: Surface::Memory, payload: note(100) },
        &["petra", "walter"],
    );
    assert_eq!(full.extend_own(&replay), Err(Fault::AppliedTwice { id: 100 }));
    assert_eq!(pruned.extend_own(&replay), Err(Fault::AppliedTwice { id: 100 }));
    // a fresh one fits both, to the same head
    b.commit_applied(7, &["petra", "walter"]);
    let next = b.blocks.last().expect("block").clone();
    assert_eq!(full.extend_own(&next), pruned.extend_own(&next));
    // and so does the next cut: both recompute the same summary
    let full_state = checkpoint_state(&b.blocks, 5).expect("full");
    let pruned_state = fold_state(blob, &b.blocks[4..], 5).expect("pruned");
    assert_eq!(full_state, pruned_state);
}

#[test]
fn what_a_holder_serves_is_accepted() {
    let mut b = grown_chain(4);
    let (_, change) = cut_of(&b, 3);
    b.commit(change, &["petra", "walter"]);
    b.commit_applied(8, &["petra", "walter"]);
    let mut holder = chain_peer("petra", &b, b.blocks[..4].to_vec());
    for block in &b.blocks[4..] {
        holder.receive_block(block.clone());
    }
    assert_eq!(holder.blocks.len(), 2, "pruned to the cut");
    let (head, sealed) =
        verify_served(holder.checkpoint_blob.as_ref(), &holder.blocks, Some(&b.republic_id))
            .expect("what is served verifies");
    assert_eq!(Some(head), holder.head);
    assert_eq!(sealed.name, "Chess Club");
    verify_served(holder.checkpoint_blob.as_ref(), &holder.blocks[..1], Some(&b.republic_id))
        .expect("the anchor verifies by itself");
    assert_eq!(
        verify_served(None, &b.blocks, Some("another")),
        Err("the chain does not match the expected republic".to_string())
    );
}

#[test]
fn a_held_chain_always_verifies() {
    // blocks heard out of order, twice, and from another branch
    let b = grown_chain(6);
    let mut rival = b.clone();
    rival.blocks.truncate(5);
    rival.head_hash = block_hash(&b.republic_id, &rival.blocks[4]);
    rival.commit_applied(999, &["petra", "walter"]);
    let mut holder = chain_peer("walter", &b, b.blocks[..1].to_vec());
    for n in [3usize, 5, 1, 1, 4, 2, 5] {
        holder.receive_block_from("petra", b.blocks[n].clone());
        let head = verify_chain(&holder.blocks).expect("the held chain verifies");
        assert_eq!(Some(&head), holder.head.as_ref());
    }
    holder.receive_block_from("dora", rival.blocks[5].clone());
    let head = verify_chain(&holder.blocks).expect("the held chain verifies");
    assert_eq!(Some(&head), holder.head.as_ref());
    let smaller = block_hash(&b.republic_id, &rival.blocks[5])
        .min(block_hash(&b.republic_id, &b.blocks[5]));
    assert_eq!(head.hash, smaller, "the smaller hash holds the tip");
}

#[test]
fn the_order_of_approvals_does_not_matter() {
    let b = Builder::new(&["petra", "walter", "dora"], 3);
    let change =
        ChainChange::Applied { proposal_id: 1, surface: Surface::Memory, payload: note(1) };
    let bytes = approval_bytes(&b.republic_id, 1, &change);
    let sig = |m: &str| identity_sign(b.key(m), &bytes);
    let mut sealed = Vec::new();
    for order in [["petra", "dora"], ["dora", "petra"]] {
        let mut s = peer_of("walter", &["petra", "walter", "dora"], &b, b.blocks.clone());
        s.identity_sk = Some(*b.key("walter"));
        s.receive_proposed(1, Surface::Memory, note(1), "petra");
        s.chain_sign_and_gossip_approval(1);
        for m in order {
            s.receive_approval(1, m, 1, &sig(m));
        }
        assert_eq!(height(&s), 1);
        sealed.push(s.blocks[1].clone());
    }
    assert_eq!(sealed[0], sealed[1]);
}

#[test]
fn the_refusals_of_the_chain_in_words() {
    let m = || "dora".to_string();
    let cases = vec![
        (Fault::NotHeightZero, "genesis is not at height 0"),
        (Fault::NotZeroRoot, "genesis prev is not the zero root"),
        (Fault::NotGenesis, "block 0 is not a genesis"),
        (Fault::ThresholdOutOfRange, "genesis threshold is out of range"),
        (Fault::RosterSize, "genesis roster size does not match n"),
        (Fault::IdMismatch, "genesis republic id does not match its content"),
        (Fault::NotFullySigned, "genesis is not fully signed by every member"),
        (Fault::HeightGap { height: 12, head: 3 }, "block height 12 does not follow 3"),
        (Fault::BrokenLink { height: 4 }, "block 4 does not link to its predecessor"),
        (Fault::LateGenesis, "a genesis cannot appear after height 0"),
        (Fault::AppliedTwice { id: 70 }, "proposal 70 is applied twice"),
        (
            Fault::CheckpointHeight { upto: 2, height: 9 },
            "checkpoint upto 2 must be exactly its block height 9 minus one",
        ),
        (
            Fault::ConsentOnNonRestore { height: 1 },
            "block 1 carries a consent on a non-restore membership change",
        ),
        (
            Fault::CountedTwice { height: 1, member: m() },
            "block 1 counts dora twice - consent plus a roster signature",
        ),
        (Fault::RestoresUnknown { height: 1 }, "block 1 restores an unknown member"),
        (
            Fault::ConsentInvalid { height: 1, member: m() },
            "block 1 carries a consent that does not verify for dora",
        ),
        (
            Fault::BelowThreshold { height: 3, have: 1, need: 2 },
            "block 3 has 1 valid approvals, threshold is 2",
        ),
        (
            Fault::JoinedUnsupported,
            "membership op `joined` is not supported: seats are fixed at founding",
        ),
        (Fault::UnknownSeat { member: m() }, "cannot restore unknown member dora"),
        (
            Fault::SeatKeyMoved { member: m() },
            "a Restored block must keep dora's anchored identity key",
        ),
        (
            Fault::BelowCoverage { upto: 3, floor: 8 },
            "checkpoint upto 3 lies below the blob coverage 8",
        ),
        (
            Fault::StateMismatch { upto: 3 },
            "checkpoint at upto 3 does not match this chain's own projection",
        ),
        (Fault::EmptyChain, "empty chain"),
        (Fault::NoGenesis, "chain does not start with a genesis"),
        (Fault::EmptySuffix, "empty suffix chain"),
        (Fault::NoCheckpoint, "suffix chain does not start with a checkpoint"),
        (Fault::BlobCoverage, "checkpoint blob does not cover the anchored upto"),
        (Fault::BlobHash, "checkpoint blob does not match the signed state hash"),
        (
            Fault::AnchorHeight,
            "checkpoint upto must be exactly the anchor height minus one",
        ),
        (
            Fault::FoundingMismatch,
            "checkpoint founding table does not recompute to the republic id",
        ),
        (Fault::RuleOutOfRange, "checkpoint roster/threshold out of range"),
        (Fault::FoundingSize, "checkpoint founding table size does not match n"),
        (
            Fault::RosterNotAnchored { member: m() },
            "checkpoint roster member dora is not anchored in the founding table",
        ),
        (
            Fault::AnchorThreshold { have: 0, need: 2 },
            "checkpoint anchor has 0 valid approvals, threshold is 2",
        ),
        (Fault::NoConstitution, "the chain does not root on a genesis constitution"),
        (Fault::WrongRepublic, "the chain does not match the expected republic"),
    ];
    for (fault, words) in cases {
        assert_eq!(fault.text(), words);
    }
}

/// The founding block of `b`, sealed again by everybody after a change.
fn refounded(b: &Builder, change: ChainChange) -> ChainBlock {
    let names: Vec<&str> = b.keys.iter().map(|(m, _)| m.as_str()).collect();
    let mut fresh = b.clone();
    fresh.head_hash = GENESIS_PREV.to_string();
    fresh.seal(0, change, &names)
}

#[test]
fn a_founding_is_refused_for_what_is_wrong_with_it() {
    let b = Builder::new(&["petra", "walter"], 2);
    let first = &b.blocks[0];
    let refuse = |block: ChainBlock| verify_chain(&[block]).expect_err("refused");
    assert_eq!(verify_chain(&[]).expect_err("refused"), "empty chain");
    assert_eq!(
        refuse(ChainBlock { height: 1, ..first.clone() }),
        "genesis is not at height 0"
    );
    assert_eq!(
        refuse(ChainBlock { prev: "00".to_string(), ..first.clone() }),
        "genesis prev is not the zero root"
    );
    assert_eq!(
        refuse(ChainBlock { change: restored("petra", "", None, None), ..first.clone() }),
        "block 0 is not a genesis"
    );
    assert_eq!(
        refuse(ChainBlock { sigs: first.sigs[..1].to_vec(), ..first.clone() }),
        "genesis is not fully signed by every member"
    );
    let with = |m: u8, n: u8| match first.change.clone() {
        ChainChange::Genesis { name, republic_id, identities, agenda, features, relays, .. } => {
            refounded(
                &b,
                ChainChange::Genesis {
                    name,
                    republic_id,
                    rule_m: m,
                    rule_n: n,
                    identities,
                    agenda,
                    features,
                    relays,
                },
            )
        }
        other => panic!("no genesis: {other:?}"),
    };
    assert_eq!(refuse(with(0, 2)), "genesis threshold is out of range");
    assert_eq!(refuse(with(3, 2)), "genesis threshold is out of range");
    assert_eq!(refuse(with(2, 3)), "genesis roster size does not match n");
    assert_eq!(refuse(with(1, 2)), "genesis republic id does not match its content");
}

#[test]
fn a_later_block_is_refused_for_what_is_wrong_with_it() {
    let mut b = Builder::new(&["petra", "walter"], 2);
    b.commit_applied(1, &["petra", "walter"]);
    let both = ["petra", "walter"];
    let refuse = |block: ChainBlock| {
        let mut chain = b.blocks.clone();
        chain.push(block);
        verify_chain(&chain).expect_err("refused")
    };
    assert_eq!(
        refuse(b.seal(2, b.blocks[0].change.clone(), &both)),
        "a genesis cannot appear after height 0"
    );
    assert_eq!(
        refuse(b.seal(2, restored("nobody", "ab", None, None), &both)),
        "cannot restore unknown member nobody"
    );
    assert_eq!(
        refuse(b.seal(2, restored("petra", &b.pk("walter"), None, None), &both)),
        "a Restored block must keep petra's anchored identity key"
    );
    assert_eq!(
        refuse(b.seal(
            2,
            restored("nobody", "ab", None, Some("00".to_string())),
            &["petra", "walter"]
        )),
        "block 2 restores an unknown member"
    );
    assert_eq!(
        refuse(b.seal(
            2,
            ChainChange::Checkpoint { upto: 1, state_hash: "00".to_string() },
            &both
        )),
        "checkpoint at upto 1 does not match this chain's own projection"
    );
}

#[test]
fn a_suffix_is_refused_for_what_is_wrong_with_it() {
    let mut b = grown_chain(3);
    let (blob, change) = cut_of(&b, 2);
    b.commit(change, &["petra", "walter"]);
    let suffix = b.blocks[3..].to_vec();
    let refuse = |blob: &CheckpointState, blocks: &[ChainBlock], rid: &str| {
        verify_suffix_chain(blob, blocks, rid).expect_err("refused")
    };
    assert_eq!(refuse(&blob, &[], &b.republic_id), "empty suffix chain");
    assert_eq!(
        refuse(&blob, &b.blocks[..1], &b.republic_id),
        "suffix chain does not start with a checkpoint"
    );
    assert_eq!(
        refuse(&CheckpointState { upto: 1, ..blob.clone() }, &suffix, &b.republic_id),
        "checkpoint blob does not cover the anchored upto"
    );
    assert_eq!(
        refuse(
            &CheckpointState { agenda: "other".to_string(), ..blob.clone() },
            &suffix,
            &b.republic_id
        ),
        "checkpoint blob does not match the signed state hash"
    );
    assert_eq!(
        refuse(&blob, &suffix, "another"),
        "checkpoint founding table does not recompute to the republic id"
    );
    let mut thin = suffix.clone();
    thin[0].sigs.pop();
    assert_eq!(
        refuse(&blob, &thin, &b.republic_id),
        "checkpoint anchor has 1 valid approvals, threshold is 2"
    );
    let walk = walk_suffix_chain(&blob, &suffix, &b.republic_id).expect("verifies");
    assert_eq!(walk.floor, Some(2));
    assert_eq!(walk.seen, BTreeSet::from([100, 101]));
}

#[test]
fn a_suffix_counts_only_the_seats_of_its_summary() {
    let mut b = Builder::new(&["petra", "walter", "dora"], 2);
    b.commit_applied(1, &["petra", "walter"]);
    let mut blob = checkpoint_state(&b.blocks, 1).expect("state@1");
    blob.roster.retain(|i| i.member != "dora");
    let cut = |signers: &[&str]| {
        b.seal(
            2,
            ChainChange::Checkpoint { upto: 1, state_hash: checkpoint_state_hash(&blob) },
            signers,
        )
    };
    assert_eq!(
        verify_suffix_chain(&blob, &[cut(&["petra", "dora"])], &b.republic_id)
            .expect_err("a founder without a seat"),
        "checkpoint anchor has 1 valid approvals, threshold is 2"
    );
    let head = verify_suffix_chain(&blob, &[cut(&["petra", "walter"])], &b.republic_id)
        .expect("two seats");
    assert_eq!(head.identities, blob.roster);
}

#[test]
fn the_served_pool_is_that_of_the_holder() {
    let both = ["petra", "walter"];
    let mut b = Builder::new_on_relays(&both, 2, vec!["wss://a".to_string()]);
    b.commit_org(1, "set_relays", "wss://a wss://d", &both);
    // the same words on another surface move no pool
    b.commit(
        ChainChange::Applied {
            proposal_id: 2,
            surface: Surface::Memory,
            payload: edit("set_relays", "wss://a wss://z"),
        },
        &both,
    );
    let pool = vec!["wss://a".to_string(), "wss://d".to_string()];
    assert_eq!(effective_relays_of_served(None, &b.blocks), pool);
    let (blob, change) = cut_of(&b, 2);
    b.commit(change, &both);
    let suffix = b.blocks[3..].to_vec();
    assert_eq!(effective_relays_of_served(Some(&blob), &suffix), pool, "edits below the cut count");

    let mut holder = peer_of("petra", &both, &b, b.blocks[..3].to_vec());
    assert_eq!(holder.effective_relays(), pool);
    holder.receive_block(b.blocks[3].clone());
    assert!(holder.checkpoint_blob.is_some(), "pruned");
    assert_eq!(holder.effective_relays(), pool);
    assert_eq!(
        effective_relays_of_served(holder.checkpoint_blob.as_ref(), &holder.blocks),
        holder.effective_relays()
    );
}

#[test]
fn of_entries_for_one_seat_the_last_counts() {
    let anchor = |m: &str, pk: &str| Anchor { member: m.to_string(), nostr_pk: pk.to_string() };
    let anchors = vec![anchor("dora", "aa"), anchor("petra", "cc"), anchor("dora", "bb")];
    assert_eq!(find_anchor(&anchors, "dora").as_deref(), Some("bb"));
    assert_eq!(find_anchor(&anchors, "walter"), None);
    let declared = |m: &str, r: &str| RelayDeclaration {
        member: m.to_string(),
        relays: vec![r.to_string()],
    };
    let declarations = vec![declared("dora", "wss://a"), declared("dora", "wss://b")];
    assert_eq!(find_declaration(&declarations, "dora"), Some(vec!["wss://b".to_string()]));
}

#[test]
fn a_list_names_each_member_once() {
    let mut b = Builder::new(&["petra", "walter", "dora"], 2);
    let mut s = chain_peer_3("walter", &b);
    for (member, height) in [("petra", 3), ("dora", 1), ("petra", 5), ("petra", 2)] {
        s.note_peer_height(member, height);
    }
    let heights: Vec<(&str, u64)> =
        s.peer_heights.iter().map(|p| (p.member.as_str(), p.height)).collect();
    assert_eq!(heights, vec![("petra", 5), ("dora", 1)]);

    for pk in ["aa", "bb"] {
        for member in ["walter", "dora"] {
            let change = restored(member, &b.pk(member), Some(pk), None);
            let block = b.seal(b.next_height(), change, &["petra", "walter"]);
            b.blocks.push(block);
        }
    }
    let anchors: Vec<(String, String)> = fold_anchors(Vec::new(), &b.blocks)
        .into_iter()
        .map(|a| (a.member, a.nostr_pk))
        .collect();
    let expected = |m: &str| (m.to_string(), "bb".to_string());
    assert_eq!(anchors, vec![expected("dora"), expected("walter")]);
}

#[test]
fn blocks_may_arrive_in_any_order() {
    let b = grown_chain(7);
    for order in [
        vec![1, 2, 3, 4, 5, 6],
        vec![6, 5, 4, 3, 2, 1],
        vec![3, 6, 1, 5, 2, 4],
        vec![4, 4, 0, 2, 6, 2, 5, 1, 1, 3, 6],
    ] {
        let mut s = chain_peer("walter", &b, b.blocks[..1].to_vec());
        for place in order {
            s.receive_block_from("petra", b.blocks[place].clone());
        }
        assert_eq!(s.blocks, b.blocks);
        assert_eq!(s.head, Some(verify_chain(&b.blocks).expect("verifies")));
        assert!(s.pending_blocks.is_empty());
    }
}

#[test]
fn settling_the_cards_twice_is_settling_them_once() {
    let b = grown_chain(4);
    let mut s = chain_peer("walter", &b, b.blocks.clone());
    s.receive_proposed(900, Surface::Memory, note(900), "petra");
    let states = |s: &State| -> Vec<(u64, ProposalState)> {
        s.proposals.rows().iter().map(|r| (r.key, r.value.state)).collect()
    };
    s.settle_cards_against_chain();
    let once = states(&s);
    s.settle_cards_against_chain();
    assert_eq!(states(&s), once);
    assert_eq!(
        once.last(),
        Some(&(900, ProposalState::Proposed)),
        "a card of no decision stays open"
    );
    assert!(once[..once.len() - 1].iter().all(|(_, st)| *st == ProposalState::Applied));
    assert_eq!(once.len(), 4);
}

#[test]
fn only_distinct_seats_count() {
    let b = Builder::new(&["petra", "walter", "dora"], 2);
    let head = verify_chain(&b.blocks).expect("founded");
    let bytes = b"the change".to_vec();
    let att = |m: &str, k: &str| RosterAttestation {
        member: m.to_string(),
        sig: identity_sign(b.key(k), &bytes),
    };
    let sigs = vec![
        att("walter", "walter"),
        att("petra", "petra"),
        att("walter", "walter"),
        att("dora", "petra"),
        att("nobody", "dora"),
    ];
    assert_eq!(
        valid_signers(&head.identities, &bytes, &sigs),
        vec!["petra".to_string(), "walter".to_string()],
        "ascending, each once"
    );
    let change = restored("dora", &b.pk("dora"), None, Some(consent_for(&b, "dora", "")));
    let block = b.seal(1, change, &["petra"]);
    assert_eq!(
        block_signers(&b.republic_id, &head.identities, &block),
        Ok(vec!["dora".to_string(), "petra".to_string()]),
        "the consent is a voice"
    );
}

#[test]
fn a_pool_edit_keeps_one_relay() {
    let mut pool = vec!["wss://a".to_string(), "wss://b".to_string()];
    fold_pool_edit(&mut pool, "wss://c");
    assert_eq!(pool, vec!["wss://a".to_string(), "wss://b".to_string()], "nothing shared");
    fold_pool_edit(&mut pool, " wss://c  wss://b ");
    assert_eq!(pool, vec!["wss://c".to_string(), "wss://b".to_string()]);

    let mut b = Builder::new_on_relays(&["petra", "walter"], 2, vec!["wss://a".to_string()]);
    b.commit_org(1, "set_relays", "wss://a wss://d", &["petra", "walter"]);
    assert_eq!(
        effective_relays_of_served(None, &b.blocks),
        vec!["wss://a".to_string(), "wss://d".to_string()]
    );
}

#[test]
fn a_block_is_shown_as_a_row() {
    let b = Builder::new(&["petra", "walter"], 2);
    let row = chain_block_view(&b.seal(
        1,
        restored("petra", &b.pk("petra"), None, None),
        &["walter", "petra"],
    ));
    assert_eq!(row.kind, "membership");
    assert_eq!(row.payload, text("restored petra"));
    assert_eq!(row.signers, vec!["walter".to_string(), "petra".to_string()]);
    assert_eq!((row.height, row.proposal_id), (1, 0));
}

#[test]
fn silence_and_lag_are_reported() {
    let b = grown_chain(4);
    let mut s = chain_peer("walter", &b, b.blocks.clone());
    assert_eq!(s.chain_lag(&Vec::new()).peers_ahead, 0);
    s.note_peer_height("petra", 9);
    s.note_peer_height("petra", 5);
    s.note_peer_height("walter", 50);
    s.note_peer_height("", 60);
    assert_eq!(s.peer_heights, vec![PeerHeight { member: "petra".to_string(), height: 9 }]);
    let lag = s.chain_lag(&vec![LastSeen { member: "petra".to_string(), at: s.now - 119 }]);
    assert_eq!(lag.peers_ahead, 6);
    assert!(lag.silent.is_empty(), "just inside the window");
    let lag = s.chain_lag(&vec![LastSeen { member: "petra".to_string(), at: s.now - 120 }]);
    assert_eq!((lag.silent[0].member.as_str(), lag.silent[0].secs), ("petra", 120));
    assert!(s.stale_signers().is_empty(), "both signed the last block");
    s.note_divergence("petra", 2);
    assert_eq!(s.diverged[0].since_height, 2);
    s.note_divergence("petra", 7);
    assert_eq!(s.diverged.len(), 1);
    assert_eq!(s.diverged[0].since_height, 2, "an earlier sighting keeps its lower height");
    s.clear_divergence("petra");
    assert!(s.diverged.is_empty());
}

#[test]
fn what_fits_a_frame() {
    assert!(served_blob_fits(1_000, 3_048));
    assert!(!served_blob_fits(1_001, 3_048));
    assert!(served_blob_fits(0, 100));
    assert!(!served_blob_fits(1, 100));
}

#[test]
fn texts_are_ordered_and_split_as_they_should_be() {
    assert_eq!(decimal(0), "0");
    assert_eq!(decimal(u64::MAX), "18446744073709551615");
    for a in ["", "a", "ab", "b", "é", "z", "𝔸"] {
        for b in ["", "a", "ab", "b", "é", "z", "𝔸"] {
            assert_eq!(text_before(a, b), a < b, "{a:?} {b:?}");
        }
    }
    assert_eq!(split_words(" a\t b\u{a0}c\n"), vec!["a", "b", "c"]);
    assert_eq!(largest(&BTreeSet::from([3, 9, 4])), Some(9));
    assert_eq!(largest(&BTreeSet::new()), None);
}
