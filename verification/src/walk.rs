//! Verification of a chain, hard-reject: a bad signature, a broken link, a gap
//! in the heights, a founding whose id does not match its content, a proposal
//! applied twice or a summary that does not recompute refuses the whole chain.

use crate::canonical;
use crate::canonical::approval_bytes;
use crate::fault::{Fault, FaultV};
use crate::fold;
use crate::fold::{checkpoint_state_hash, fold_one, genesis_base, hash_walk_state};
use crate::identity;
use crate::identity::republic_id;
use crate::model::{
    BlockV, ChainBlock, ChainChange, ChangeV, CheckpointState, IdentityV, MemberIdentity,
    RosterAttestation, SealedRoster, SealedV, SummaryV,
};
use crate::signers;
use crate::signers::{block_hash, valid_signers, verify_genesis, verify_next, ChainHead, HeadV};
use crate::text::same_text;
use std::collections::BTreeSet;
use vstd::prelude::*;
use vstd::string::*;

verus! {

/// Everything a verification accumulates as it folds, kept so that a holder
/// can extend a prefix it has already verified instead of walking it again.
#[derive(Debug)]
pub struct ChainWalk {
    /// The verified head after every block folded so far.
    pub head: ChainHead,
    /// The proposal ids applied so far. A pruned holder's come from its
    /// summary: the blocks that carried them are gone.
    pub seen: BTreeSet<u64>,
    /// The state that a checkpoint's hash is checked against.
    pub running: CheckpointState,
    /// What a suffix holder's summary covers. A checkpoint claiming less
    /// would leave blocks that neither the summary nor the suffix carries.
    pub floor: Option<u64>,
    /// How many blocks this walk covers, the first included.
    pub folded: usize,
}

/// The model of [`ChainWalk`].
pub struct WalkV {
    pub head: HeadV,
    pub seen: Set<u64>,
    pub running: SummaryV,
    pub floor: Option<u64>,
    pub folded: usize,
}

impl DeepView for ChainWalk {
    type V = WalkV;

    open spec fn deep_view(&self) -> WalkV {
        WalkV {
            head: self.head.deep_view(),
            seen: self.seen@,
            running: self.running.deep_view(),
            floor: self.floor,
            folded: self.folded,
        }
    }
}

/// Why a checkpoint does not fit the walk, if it does not.
pub open spec fn checkpoint_fault(w: WalkV, change: ChangeV) -> Option<FaultV> {
    match change {
        ChangeV::Checkpoint { upto, state_hash } => {
            if w.floor is Some && upto < w.floor->0 {
                Some(FaultV::BelowCoverage { upto, floor: w.floor->0 })
            } else if fold::state_hash_of(fold::cut_at(w.running, upto)) != state_hash {
                Some(FaultV::StateMismatch { upto })
            } else {
                None
            }
        },
        _ => None,
    }
}

/// The number after `n`, where there is one.
pub open spec fn counted_up(n: usize) -> usize {
    if n < usize::MAX {
        (n + 1) as usize
    } else {
        n
    }
}

/// The walk after one more block, or why the block does not fit.
#[verifier::opaque]
pub open spec fn stepped(w: WalkV, block: BlockV) -> Result<WalkV, FaultV> {
    match signers::next_head(w.head, block, w.seen) {
        Err(e) => Err(e),
        Ok(head) => match checkpoint_fault(w, block.change) {
            Some(e) => Err(e),
            None => match fold::folded(w.running, block) {
                Err(e) => Err(e),
                Ok(running) => Ok(
                    WalkV {
                        head,
                        seen: match signers::consumed_by(block.change) {
                            Some(id) => w.seen.insert(id),
                            None => w.seen,
                        },
                        running,
                        floor: w.floor,
                        folded: counted_up(w.folded),
                    },
                ),
            },
        },
    }
}

/// The walk after further blocks, in order; the first that does not fit ends
/// it.
pub open spec fn walked_on(w: WalkV, blocks: Seq<BlockV>) -> Result<WalkV, FaultV>
    decreases blocks.len(),
{
    if blocks.len() == 0 {
        Ok(w)
    } else {
        match stepped(w, blocks[0]) {
            Err(e) => Err(e),
            Ok(next) => walked_on(next, blocks.skip(1)),
        }
    }
}

impl ChainWalk {
    /// Folds one block into the walk. A refused block leaves the walk as it
    /// was, so a walk that is kept stays good after a refusal.
    pub fn step(&mut self, block: &ChainBlock) -> (r: Result<(), Fault>)
        ensures
            match r {
                Ok(()) => stepped(old(self).deep_view(), block.deep_view()) == Ok::<WalkV, FaultV>(
                    final(self).deep_view(),
                ),
                Err(e) => {
                    &&& stepped(old(self).deep_view(), block.deep_view()) == Err::<WalkV, FaultV>(
                        e.deep_view(),
                    )
                    &&& final(self).deep_view() == old(self).deep_view()
                },
            },
    {
        broadcast use vstd::std_specs::btree::group_btree_axioms;

        proof {
            reveal(stepped);
        }
        let (head, consumed) = match verify_next(&self.head, block, &self.seen) {
            Ok(p) => p,
            Err(e) => {
                return Err(e);
            },
        };
        match &block.change {
            ChainChange::Checkpoint { upto, state_hash } => {
                match self.floor {
                    Some(floor) => {
                        if *upto < floor {
                            return Err(Fault::BelowCoverage { upto: *upto, floor });
                        }
                    },
                    None => {},
                }
                let own = hash_walk_state(&self.running, *upto);
                if own != *state_hash {
                    return Err(Fault::StateMismatch { upto: *upto });
                }
            },
            _ => {},
        }
        match fold_one(&mut self.running, block) {
            Ok(()) => {},
            Err(e) => {
                return Err(e);
            },
        }
        match consumed {
            Some(id) => {
                self.seen.insert(id);
            },
            None => {},
        }
        self.head = head;
        if self.folded < usize::MAX {
            self.folded = self.folded + 1;
        }
        Ok(())
    }

    /// Does this walk still describe `chain` under `blob`? A kept walk is only
    /// used where it does.
    pub fn describes(&self, chain: &[ChainBlock], blob: Option<&CheckpointState>) -> (r: bool)
        ensures
            r == describes_chain(
                self.deep_view(),
                chain.deep_view(),
                match blob {
                    Some(b) => Some(b.upto),
                    None => None,
                },
            ),
    {
        let covered: Option<u64> = match blob {
            Some(b) => Some(b.upto),
            None => None,
        };
        let same_floor = match (self.floor, covered) {
            (Some(a), Some(b)) => a == b,
            (None, None) => true,
            _ => false,
        };
        if self.folded != chain.len() || !same_floor || chain.len() == 0 {
            return false;
        }
        assert(chain.deep_view().last() == chain@[chain@.len() - 1].deep_view());
        let last = block_hash(self.head.republic_id.as_str(), &chain[chain.len() - 1]);
        last == self.head.hash
    }
}

/// Does a walk cover exactly as many blocks, the same summary and the same
/// last block?
pub open spec fn describes_chain(w: WalkV, chain: Seq<BlockV>, covered: Option<u64>) -> bool {
    &&& w.folded == chain.len()
    &&& w.floor == covered
    &&& chain.len() > 0
    &&& signers::block_hash_of(w.head.republic_id, chain.last()) == w.head.hash
}

/// Folds the blocks of `blocks[from..]` into the walk.
fn walk_rest(walk: ChainWalk, blocks: &[ChainBlock], from: usize) -> (r: Result<ChainWalk, Fault>)
    requires
        from <= blocks@.len(),
    ensures
        match r {
            Ok(w) => walked_on(walk.deep_view(), blocks.deep_view().skip(from as int)) == Ok::<
                WalkV,
                FaultV,
            >(w.deep_view()),
            Err(e) => walked_on(walk.deep_view(), blocks.deep_view().skip(from as int)) == Err::<
                WalkV,
                FaultV,
            >(e.deep_view()),
        },
{
    let ghost all = blocks.deep_view();
    let ghost start = walk.deep_view();
    let mut w = walk;
    let mut i: usize = from;
    while i < blocks.len()
        invariant
            from <= i <= blocks@.len(),
            start == walk.deep_view(),
            all == blocks.deep_view(),
            walked_on(start, all.skip(from as int)) == walked_on(w.deep_view(), all.skip(i as int)),
        decreases blocks.len() - i,
    {
        assert(all.skip(i as int)[0] == blocks@[i as int].deep_view());
        match w.step(&blocks[i]) {
            Ok(()) => {},
            Err(e) => {
                return Err(e);
            },
        }
        assert(all.skip(i as int).skip(1) =~= all.skip(i + 1));
        i = i + 1;
    }
    Ok(w)
}

/// The walk of a first block alone.
pub open spec fn founded_walk(block: BlockV) -> Result<WalkV, FaultV> {
    match signers::founded_head(block) {
        Err(e) => Err(e),
        Ok(head) => Ok(
            WalkV {
                head,
                seen: Set::empty(),
                running: fold::founded_state(block.change)->0,
                floor: None,
                folded: 1,
            },
        ),
    }
}

/// The walk of a chain from its founding, or why the chain is refused.
pub open spec fn walked(blocks: Seq<BlockV>) -> Result<WalkV, FaultV> {
    if blocks.len() == 0 {
        Err(FaultV::EmptyChain)
    } else {
        match founded_walk(blocks[0]) {
            Err(e) => Err(e),
            Ok(w) => walked_on(w, blocks.skip(1)),
        }
    }
}

/// Walks a chain from its founding.
pub fn walk_chain(blocks: &[ChainBlock]) -> (r: Result<ChainWalk, Fault>)
    ensures
        match r {
            Ok(w) => walked(blocks.deep_view()) == Ok::<WalkV, FaultV>(w.deep_view()),
            Err(e) => walked(blocks.deep_view()) == Err::<WalkV, FaultV>(e.deep_view()),
        },
{
    if blocks.len() == 0 {
        return Err(Fault::EmptyChain);
    }
    assert(blocks.deep_view()[0] == blocks@[0].deep_view());
    let head = match verify_genesis(&blocks[0]) {
        Ok(h) => h,
        Err(e) => {
            return Err(e);
        },
    };
    match genesis_base(&blocks[0].change) {
        Some(running) => {
            let walk = ChainWalk { head, seen: BTreeSet::new(), running, floor: None, folded: 1 };
            walk_rest(walk, blocks, 1)
        },
        None => Err(Fault::NotGenesis),
    }
}

/// The head of a chain, or the refusal in words.
pub open spec fn verified_head(walk: Result<WalkV, FaultV>) -> Result<HeadV, Seq<char>> {
    match walk {
        Ok(w) => Ok(w.head),
        Err(e) => Err(e.text()),
    }
}

/// Verifies a whole chain from its founding and returns its head. Any failure
/// refuses the chain in full.
pub fn verify_chain(blocks: &[ChainBlock]) -> (r: Result<ChainHead, String>)
    ensures
        match r {
            Ok(h) => verified_head(walked(blocks.deep_view())) == Ok::<HeadV, Seq<char>>(
                h.deep_view(),
            ),
            Err(e) => verified_head(walked(blocks.deep_view())) == Err::<HeadV, Seq<char>>(e@),
        },
{
    match walk_chain(blocks) {
        Ok(w) => Ok(w.head),
        Err(e) => Err(e.text()),
    }
}

/// The first roster entry that is not literally a founding entry.
pub open spec fn unanchored(roster: Seq<IdentityV>, founding: Seq<IdentityV>) -> Option<Seq<char>>
    decreases roster.len(),
{
    if roster.len() == 0 {
        None
    } else if !founding.contains(roster[0]) {
        Some(roster[0].member)
    } else {
        unanchored(roster.skip(1), founding)
    }
}

/// Is `entry` literally one of the founding entries?
fn is_founding_entry(founding: &Vec<MemberIdentity>, entry: &MemberIdentity) -> (r: bool)
    ensures
        r == founding.deep_view().contains(entry.deep_view()),
{
    let mut i: usize = 0;
    while i < founding.len()
        invariant
            i <= founding.len(),
            forall|k: int| 0 <= k < i ==> founding.deep_view()[k] != entry.deep_view(),
        decreases founding.len() - i,
    {
        let f = &founding[i];
        if f.member == entry.member && f.identity_pk == entry.identity_pk && f.nostr_pk
            == entry.nostr_pk {
            assert(founding.deep_view()[i as int] == entry.deep_view());
            return true;
        }
        i = i + 1;
    }
    false
}

/// The first roster entry that is not literally a founding entry.
fn find_unanchored(roster: &Vec<MemberIdentity>, founding: &Vec<MemberIdentity>) -> (r: Option<
    String,
>)
    ensures
        r.deep_view() == unanchored(roster.deep_view(), founding.deep_view()),
{
    let ghost all = roster.deep_view();
    let mut i: usize = 0;
    assert(all.skip(0) =~= all);
    while i < roster.len()
        invariant
            i <= roster.len(),
            all == roster.deep_view(),
            unanchored(all, founding.deep_view()) == unanchored(
                all.skip(i as int),
                founding.deep_view(),
            ),
        decreases roster.len() - i,
    {
        assert(all.skip(i as int)[0] == roster@[i as int].deep_view());
        if !is_founding_entry(founding, &roster[i]) {
            return Some(roster[i].member.clone());
        }
        assert(all.skip(i as int).skip(1) =~= all.skip(i + 1));
        i = i + 1;
    }
    None
}

/// The ids as a set.
fn id_set(ids: &Vec<u64>) -> (r: BTreeSet<u64>)
    ensures
        r@ == ids@.to_set(),
{
    broadcast use vstd::std_specs::btree::group_btree_axioms;

    let mut out: BTreeSet<u64> = BTreeSet::new();
    let mut i: usize = 0;
    assert(ids@.take(0).to_set() =~= Set::empty());
    while i < ids.len()
        invariant
            i <= ids.len(),
            out@ == ids@.take(i as int).to_set(),
        decreases ids.len() - i,
    {
        out.insert(ids[i]);
        proof {
            let now = ids@.take(i + 1);
            assert(now =~= ids@.take(i as int).push(ids@[i as int]));
            assert forall|x: u64| now.to_set().contains(x) == ids@.take(i as int).to_set().insert(
                ids@[i as int],
            ).contains(x) by {
                if ids@.take(i as int).contains(x) {
                    let k = choose|k: int| 0 <= k < i && ids@.take(i as int)[k] == x;
                    assert(now[k] == x);
                }
                if x == ids@[i as int] {
                    assert(now[i as int] == x);
                }
                if now.contains(x) {
                    let k = choose|k: int| 0 <= k < now.len() && now[k] == x;
                    if k < i {
                        assert(ids@.take(i as int)[k] == x);
                    }
                }
            }
            assert(now.to_set() =~= ids@.take(i as int).to_set().insert(ids@[i as int]));
        }
        i = i + 1;
    }
    assert(ids@.take(i as int) =~= ids@);
    out
}

/// Why a summary and its anchor block cannot root a suffix, if they cannot.
/// The summary must hash to what the anchor signs, its founding table must
/// recompute to the republic's id, every roster entry must be a founding
/// entry, and the anchor's signatures must reach the threshold over the
/// summary's roster, so over founding keys.
pub open spec fn anchor_fault(
    blob: SummaryV,
    anchor: BlockV,
    expected: Seq<char>,
) -> Option<FaultV> {
    match anchor.change {
        ChangeV::Checkpoint { upto, state_hash } => {
            let rid = identity::republic_id_of(
                blob.founding_name,
                blob.rule_m,
                blob.rule_n,
                blob.founding_identities,
            );
            let names = signers::signers_of(
                blob.roster,
                canonical::approval_bytes_of(blob.republic_id, anchor.height, anchor.change),
                anchor.sigs,
            );
            if blob.upto != upto {
                Some(FaultV::BlobCoverage)
            } else if fold::state_hash_of(blob) != state_hash {
                Some(FaultV::BlobHash)
            } else if anchor.height != upto + 1 {
                Some(FaultV::AnchorHeight)
            } else if rid != expected || rid != blob.republic_id {
                Some(FaultV::FoundingMismatch)
            } else if blob.rule_m == 0 || blob.rule_m > blob.rule_n || blob.roster.len() == 0 {
                Some(FaultV::RuleOutOfRange)
            } else if blob.rule_n != blob.founding_identities.len() {
                Some(FaultV::FoundingSize)
            } else if unanchored(blob.roster, blob.founding_identities) is Some {
                Some(
                    FaultV::RosterNotAnchored {
                        member: unanchored(blob.roster, blob.founding_identities)->0,
                    },
                )
            } else if names.len() < blob.rule_m {
                Some(FaultV::AnchorThreshold { have: names.len() as u64, need: blob.rule_m })
            } else {
                None
            }
        },
        _ => Some(FaultV::NoCheckpoint),
    }
}

/// The walk that a summary and its anchor block root. The ids seen so far come
/// from the summary.
pub open spec fn rooted_walk(blob: SummaryV, anchor: BlockV) -> WalkV {
    WalkV {
        head: HeadV {
            height: anchor.height,
            hash: signers::block_hash_of(blob.republic_id, anchor),
            republic_id: blob.republic_id,
            rule_m: blob.rule_m,
            identities: blob.roster,
        },
        seen: blob.consumed_ids.to_set(),
        running: blob,
        floor: Some(blob.upto),
        folded: 1,
    }
}

/// The walk of a chain that begins with a checkpoint, or why it is refused.
pub open spec fn walked_suffix(blob: SummaryV, blocks: Seq<BlockV>, expected: Seq<char>) -> Result<
    WalkV,
    FaultV,
> {
    if blocks.len() == 0 {
        Err(FaultV::EmptySuffix)
    } else {
        match anchor_fault(blob, blocks[0], expected) {
            Some(e) => Err(e),
            None => walked_on(rooted_walk(blob, blocks[0]), blocks.skip(1)),
        }
    }
}

/// Walks a chain that begins with a checkpoint: the summary is its trust
/// anchor.
pub fn walk_suffix_chain(
    blob: &CheckpointState,
    blocks: &[ChainBlock],
    expected_republic_id: &str,
) -> (r: Result<ChainWalk, Fault>)
    ensures
        match r {
            Ok(w) => walked_suffix(
                blob.deep_view(),
                blocks.deep_view(),
                expected_republic_id@,
            ) == Ok::<WalkV, FaultV>(w.deep_view()),
            Err(e) => walked_suffix(
                blob.deep_view(),
                blocks.deep_view(),
                expected_republic_id@,
            ) == Err::<WalkV, FaultV>(e.deep_view()),
        },
{
    if blocks.len() == 0 {
        return Err(Fault::EmptySuffix);
    }
    let anchor = &blocks[0];
    assert(blocks.deep_view()[0] == anchor.deep_view());
    match &anchor.change {
        ChainChange::Checkpoint { upto, state_hash } => {
            if blob.upto != *upto {
                return Err(Fault::BlobCoverage);
            }
            let own = checkpoint_state_hash(blob);
            if own != *state_hash {
                return Err(Fault::BlobHash);
            }
            if anchor.height == 0 || anchor.height - 1 != *upto {
                return Err(Fault::AnchorHeight);
            }
            let rid = republic_id(
                blob.founding_name.as_str(),
                blob.rule_m,
                blob.rule_n,
                &blob.founding_identities,
            );
            if !same_text(rid.as_str(), expected_republic_id) || rid != blob.republic_id {
                return Err(Fault::FoundingMismatch);
            }
            if blob.rule_m == 0 || blob.rule_m > blob.rule_n || blob.roster.len() == 0 {
                return Err(Fault::RuleOutOfRange);
            }
            if blob.rule_n as usize != blob.founding_identities.len() {
                return Err(Fault::FoundingSize);
            }
            match find_unanchored(&blob.roster, &blob.founding_identities) {
                Some(member) => {
                    return Err(Fault::RosterNotAnchored { member });
                },
                None => {},
            }
            let bytes = approval_bytes(blob.republic_id.as_str(), anchor.height, &anchor.change);
            let names = valid_signers(&blob.roster, &bytes, &anchor.sigs);
            if names.len() < blob.rule_m as usize {
                return Err(Fault::AnchorThreshold { have: names.len() as u64, need: blob.rule_m });
            }
            let walk = ChainWalk {
                head: ChainHead {
                    height: anchor.height,
                    hash: block_hash(blob.republic_id.as_str(), anchor),
                    republic_id: blob.republic_id.clone(),
                    rule_m: blob.rule_m,
                    identities: blob.roster.clone(),
                },
                seen: id_set(&blob.consumed_ids),
                running: blob.clone(),
                floor: Some(blob.upto),
                folded: 1,
            };
            proof {
                fold::lemma_ids_view(blob.consumed_ids);
                assert(walk.deep_view() == rooted_walk(blob.deep_view(), anchor.deep_view()));
            }
            walk_rest(walk, blocks, 1)
        },
        _ => Err(Fault::NoCheckpoint),
    }
}

/// Verifies a chain that begins with a checkpoint and returns its head.
pub fn verify_suffix_chain(
    blob: &CheckpointState,
    blocks: &[ChainBlock],
    expected_republic_id: &str,
) -> (r: Result<ChainHead, String>)
    ensures
        match r {
            Ok(h) => verified_head(
                walked_suffix(blob.deep_view(), blocks.deep_view(), expected_republic_id@),
            ) == Ok::<HeadV, Seq<char>>(h.deep_view()),
            Err(e) => verified_head(
                walked_suffix(blob.deep_view(), blocks.deep_view(), expected_republic_id@),
            ) == Err::<HeadV, Seq<char>>(e@),
        },
{
    match walk_suffix_chain(blob, blocks, expected_republic_id) {
        Ok(w) => Ok(w.head),
        Err(e) => Err(e.text()),
    }
}

/// The constitution that a first block seals.
pub open spec fn sealed_by(block: BlockV) -> Option<SealedV> {
    match block.change {
        ChangeV::Genesis { name, republic_id, rule_m, rule_n, identities, agenda, features, relays } => Some(
            SealedV {
                name,
                republic_id,
                rule_m,
                rule_n,
                identities,
                agenda,
                features,
                relays,
                attestations: block.sigs,
            },
        ),
        _ => None,
    }
}

/// The constitution that a first block seals.
pub fn sealed_roster_from_genesis(block: &ChainBlock) -> (r: Option<SealedRoster>)
    ensures
        r.deep_view() == sealed_by(block.deep_view()),
{
    match &block.change {
        ChainChange::Genesis {
            name,
            republic_id,
            rule_m,
            rule_n,
            identities,
            agenda,
            features,
            relays,
        } => Some(
            SealedRoster {
                name: name.clone(),
                republic_id: republic_id.clone(),
                rule_m: *rule_m,
                rule_n: *rule_n,
                identities: identities.clone(),
                agenda: agenda.clone(),
                features: features.clone(),
                relays: relays.clone(),
                attestations: block.sigs.clone(),
            },
        ),
        _ => None,
    }
}

/// The constitution that a summary carries; the attestations went with the
/// first block.
pub open spec fn sealed_in(blob: SummaryV) -> SealedV {
    SealedV {
        name: blob.founding_name,
        republic_id: blob.republic_id,
        rule_m: blob.rule_m,
        rule_n: blob.rule_n,
        identities: blob.founding_identities,
        agenda: blob.agenda,
        features: blob.founding_features,
        relays: blob.relays,
        attestations: Seq::empty(),
    }
}

/// The constitution that a summary carries.
pub fn sealed_roster_from_blob(blob: &CheckpointState) -> (r: SealedRoster)
    ensures
        r.deep_view() == sealed_in(blob.deep_view()),
{
    let attestations: Vec<RosterAttestation> = Vec::new();
    assert(attestations.deep_view() =~= Seq::empty());
    SealedRoster {
        name: blob.founding_name.clone(),
        republic_id: blob.republic_id.clone(),
        rule_m: blob.rule_m,
        rule_n: blob.rule_n,
        identities: blob.founding_identities.clone(),
        agenda: blob.agenda.clone(),
        features: blob.founding_features.clone(),
        relays: blob.relays.clone(),
        attestations,
    }
}

/// What served material proves: a full chain from its founding, or a suffix
/// under its summary. An expected id pins which republic it must be.
pub open spec fn served(
    checkpoint: Option<SummaryV>,
    blocks: Seq<BlockV>,
    expected: Option<Seq<char>>,
) -> Result<(HeadV, SealedV), FaultV> {
    match checkpoint {
        None => match walked(blocks) {
            Err(e) => Err(e),
            Ok(w) => match sealed_by(blocks[0]) {
                None => Err(FaultV::NoConstitution),
                Some(sealed) => if expected is Some && w.head.republic_id != expected->0 {
                    Err(FaultV::WrongRepublic)
                } else {
                    Ok((w.head, sealed))
                },
            },
        },
        Some(blob) => match walked_suffix(
            blob,
            blocks,
            match expected {
                Some(rid) => rid,
                None => blob.republic_id,
            },
        ) {
            Err(e) => Err(e),
            Ok(w) => Ok((w.head, sealed_in(blob))),
        },
    }
}

/// Verifies served material: the shared front door of every adoption from
/// outside. Returns the verified head and the founding constitution.
pub fn verify_served(
    checkpoint: Option<&CheckpointState>,
    blocks: &[ChainBlock],
    expected_rid: Option<&str>,
) -> (r: Result<(ChainHead, SealedRoster), String>)
    ensures
        match r {
            Ok(p) => served(
                checkpoint.deep_view(),
                blocks.deep_view(),
                expected_rid.deep_view(),
            ) == Ok::<(HeadV, SealedV), FaultV>((p.0.deep_view(), p.1.deep_view())),
            Err(e) => {
                &&& served(checkpoint.deep_view(), blocks.deep_view(), expected_rid.deep_view()) is Err
                &&& e@ == served(
                    checkpoint.deep_view(),
                    blocks.deep_view(),
                    expected_rid.deep_view(),
                )->Err_0.text()
            },
        },
{
    match checkpoint {
        None => {
            let head = match walk_chain(blocks) {
                Ok(w) => w.head,
                Err(e) => {
                    return Err(e.text());
                },
            };
            if blocks.len() == 0 {
                return Err(Fault::EmptyChain.text());
            }
            assert(blocks.deep_view()[0] == blocks@[0].deep_view());
            let sealed = match sealed_roster_from_genesis(&blocks[0]) {
                Some(s) => s,
                None => {
                    return Err(Fault::NoConstitution.text());
                },
            };
            match expected_rid {
                Some(rid) => {
                    if !same_text(head.republic_id.as_str(), rid) {
                        return Err(Fault::WrongRepublic.text());
                    }
                },
                None => {},
            }
            Ok((head, sealed))
        },
        Some(blob) => {
            let rid: &str = match expected_rid {
                Some(r) => r,
                None => blob.republic_id.as_str(),
            };
            match walk_suffix_chain(blob, blocks, rid) {
                Ok(w) => Ok((w.head, sealed_roster_from_blob(blob))),
                Err(e) => Err(e.text()),
            }
        },
    }
}

} // verus!
