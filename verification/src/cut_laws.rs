//! What holds of a cut: who proposes it, who signs it, what it drops, and how
//! a holder that lags starts from it.

use crate::canonical;
use crate::checkpoint;
use crate::fold;
use crate::identity;
use crate::model::{BlockV, ChangeV, SummaryV, Surface};
use crate::sealing;
use crate::signers::HeadV;
use crate::silence_laws;
use crate::state::{EffectV, EventV, ProposalState, StateV, WireV};
use crate::table;
use crate::text;
use crate::walk;
use vstd::prelude::*;

verus! {

/// A cut is proposed at the head and carries the hash of the holder's own
/// summary up to there. It is announced under the next free id, and where
/// proposers do not sign it is what is registered under that id.
pub proof fn a_cut_is_proposed_at_the_head(s: StateV)
    requires
        s.head is Some,
        s.own_summary(s.head->0.height) is Ok,
    ensures
        ({
            let w = s.proposing_checkpoint();
            let n = s.effects.len() as int;
            let upto = s.head->0.height;
            let state_hash = identity::hash_text(
                canonical::checkpoint_bytes_of(s.own_summary(upto)->Ok_0),
            );
            &&& s.checkpoint_outcome() == Ok::<u64, Seq<char>>(s.next_id)
            &&& w.effects.len() > n
            &&& w.effects[n] == (EffectV::Send {
                body: WireV::CheckpointProposed { id: s.next_id, upto, state_hash },
            })
            &&& !s.self_cosign ==> table::get(w.proposal_changes, s.next_id) == Some(
                ChangeV::Checkpoint { upto, state_hash },
            ) && w.blocks == s.blocks && w.head == s.head
            &&& s.self_cosign && s.identity_sk is Some && upto < u64::MAX ==> w.effects.len() > n
                + 1 && w.effects[n + 1] == (EffectV::Send {
                body: WireV::Approved {
                    id: s.next_id,
                    by: s.me(),
                    height: (upto + 1) as u64,
                    sig: identity::signature_text(
                        s.identity_sk->0,
                        canonical::approval_bytes_of(
                            s.rid(),
                            (upto + 1) as u64,
                            ChangeV::Checkpoint { upto, state_hash },
                        ),
                    ),
                },
            })
        }),
{
    let id = s.next_id;
    let upto = s.head->0.height;
    let state_hash = fold::state_hash_of(s.own_summary(upto)->Ok_0);
    let t = s.checkpoint_announced();
    let n = s.effects.len() as int;
    table::reading_a_put(s.proposal_changes, id, ChangeV::Checkpoint { upto, state_hash }, id);
    silence_laws::lemma_signing_silent(t, id, t.next_id);
    if s.self_cosign {
        assert(s.proposing_checkpoint().effects[n] == t.effects[n]);
        if s.identity_sk is Some && upto < u64::MAX {
            assert(t.can_sign(id));
            let voiced = t.voicing(id);
            silence_laws::lemma_committing_silent(voiced, id, voiced.next_id);
            assert(s.proposing_checkpoint().effects[n + 1] == voiced.effects[n + 1]);
        }
    }
}

/// Without a head, or where the chain does not fold, no cut is proposed and
/// nothing changes.
pub proof fn a_cut_needs_a_chain(s: StateV)
    requires
        s.head is None || s.own_summary(s.head->0.height) is Err,
    ensures
        s.checkpoint_outcome() is Err,
        s.proposing_checkpoint() == s,
{
}

/// A holder's own summary is that of its whole chain; once the chain was cut,
/// it goes on from the summary it is anchored on.
pub proof fn an_own_summary_is_of_the_own_chain(s: StateV, upto: u64)
    ensures
        s.checkpoint_blob is None ==> s.own_summary(upto) == fold::summary_of(s.blocks, upto),
        s.checkpoint_blob matches Some(blob) ==> s.own_summary(upto) == fold::state_through(
            blob,
            s.blocks,
            upto,
        ),
{
}

/// A proposed cut is registered and signed only where it is at the holder's
/// own head and carries the hash of the holder's own summary; any other is
/// never signed, and nothing is registered for it.
pub proof fn only_an_own_summary_is_signed(s: StateV, id: u64, upto: u64, state_hash: Seq<char>)
    ensures
        ({
            let w = s.cut_heard(id, upto, state_hash);
            let own = {
                &&& s.head is Some
                &&& s.head->0.height == upto
                &&& s.own_summary(upto) is Ok
                &&& state_hash == identity::hash_text(
                    canonical::checkpoint_bytes_of(s.own_summary(upto)->Ok_0),
                )
            };
            &&& !own ==> {
                &&& w.effects == s.effects
                &&& w.proposal_changes == s.proposal_changes
                &&& w.pending_sigs == s.pending_sigs
                &&& w.blocks == s.blocks
            }
            &&& own && (id <= s.next_id + 4096 || s.next_id + 4096 > u64::MAX) && table::get(
                s.proposal_changes,
                id,
            ) is None && table::get(s.proposals, id) is None && (forall|i: int|
                0 <= i < s.proposal_changes.len() ==> (#[trigger] s.proposal_changes[i]).1 != (
                ChangeV::Checkpoint { upto, state_hash })) && s.identity_sk is Some && upto
                < u64::MAX && table::get(s.pending_sigs, id) is None ==> {
                let n = s.effects.len() as int;
                &&& w.effects.len() > n
                &&& w.effects[n] == (EffectV::Send {
                    body: WireV::Approved {
                        id,
                        by: s.me(),
                        height: (upto + 1) as u64,
                        sig: identity::signature_text(
                            s.identity_sk->0,
                            canonical::approval_bytes_of(
                                s.rid(),
                                (upto + 1) as u64,
                                ChangeV::Checkpoint { upto, state_hash },
                            ),
                        ),
                    },
                })
            }
        }),
{
    let change = ChangeV::Checkpoint { upto, state_hash };
    let minted = s.minting_past(id);
    let t = StateV {
        proposal_changes: table::put(minted.proposal_changes, id, change),
        ..minted
    };
    table::reading_a_put(s.proposal_changes, id, change, id);
    if t.can_sign(id) {
        let voiced = t.voicing(id);
        silence_laws::lemma_committing_silent(voiced, id, voiced.next_id);
        if s.takes_cut(id, upto, state_hash) && table::get(s.pending_sigs, id) is None {
            let n = s.effects.len() as int;
            assert(s.cut_heard(id, upto, state_hash) == t.signing(id));
            assert(t.signing(id).effects[n] == voiced.effects[n]);
        }
    }
}

/// The blocks from a height on are those, in order.
proof fn lemma_blocks_from(blocks: Seq<BlockV>, height: u64)
    ensures
        sealing::blocks_from(blocks, height) == blocks.filter(|b: BlockV| b.height >= height),
    decreases blocks.len(),
{
    reveal(Seq::filter);
    if blocks.len() > 0 {
        lemma_blocks_from(blocks.drop_last(), height);
    }
}

/// A settled cut drops the blocks below it, and those alone, anchors the chain
/// on the summary that was cut, hands both to the storage and says so. The
/// head stays. Where there is no such summary nothing is dropped.
pub proof fn a_cut_drops_what_it_sums_up(s: StateV, upto: u64, height: u64)
    ensures
        ({
            let w = s.pruned_to(upto, height);
            match s.own_summary(upto) {
                Err(e) => w == s,
                Ok(blob) => {
                    let kept = s.blocks.filter(|b: BlockV| b.height >= height);
                    &&& w.checkpoint_blob == Some(blob)
                    &&& w.blocks == kept
                    &&& w.head == s.head
                    &&& w.effects.len() >= 2
                    &&& w.effects[w.effects.len() - 2] == (EffectV::PersistChain {
                        blob: Some(blob),
                        blocks: kept,
                    })
                    &&& w.effects.last() == (EffectV::Emit {
                        event: EventV::CheckpointSealed { height, upto },
                    })
                },
            }
        }),
{
    match s.own_summary(upto) {
        Err(e) => {},
        Ok(blob) => {
            let cut = s.anchored_on(Some(blob));
            let short = StateV { blocks: sealing::blocks_from(cut.blocks, height), ..cut };
            sealing::lemma_chain_applied_frame(short);
            lemma_blocks_from(s.blocks, height);
        },
    }
}

/// It is for a holder to propose the next cut exactly where its chain is long
/// enough, nothing is being caught up with, no vote is open and no other seat
/// has a lower name than its own.
pub proof fn the_lowest_named_member_cuts(s: StateV)
    ensures
        s.owes_checkpoint() <==> {
            &&& s.blocks.len() >= 32
            &&& s.head is Some
            &&& s.head->0.height < u64::MAX
            &&& s.catchup_from is None
            &&& table::get(s.pending_blocks, (s.head->0.height + 1) as u64) is None
            &&& exists|i: int|
                0 <= i < s.head->0.identities.len() && (
                #[trigger] s.head->0.identities[i]).member == s.me()
            &&& forall|i: int|
                0 <= i < s.head->0.identities.len() ==> !text::before(
                    (#[trigger] s.head->0.identities[i]).member,
                    s.me(),
                )
            &&& forall|i: int|
                0 <= i < s.proposals.len() ==> (#[trigger] s.proposals[i]).1.state
                    != ProposalState::Proposed
            &&& s.pending_sigs.len() == 0
            &&& forall|i: int|
                0 <= i < s.proposal_changes.len() ==> !((
                #[trigger] s.proposal_changes[i]).1 is Checkpoint)
        },
        !s.owes_checkpoint() ==> s.auto_checkpointing() == s,
        s.owes_checkpoint() ==> s.auto_checkpointing() == s.proposing_checkpoint(),
{
}

/// The blocks held from a height on run without a gap, each the one held for
/// its height, and stop at the first height that is missing.
pub proof fn a_run_has_no_gap(rows: Seq<(u64, BlockV)>, height: u64)
    ensures
        ({
            let run = checkpoint::run_from(rows, height);
            &&& height + run.len() <= u64::MAX + 1
            &&& forall|i: int|
                0 <= i < run.len() ==> table::get(rows, (height + i) as u64) == Some(
                    #[trigger] run[i],
                )
            &&& height + run.len() <= u64::MAX ==> table::get(
                rows,
                (height + run.len()) as u64,
            ) is None
        }),
    decreases u64::MAX - height,
{
    let run = checkpoint::run_from(rows, height);
    if table::get(rows, height) is Some && height < u64::MAX {
        let next = (height + 1) as u64;
        a_run_has_no_gap(rows, next);
        let rest = checkpoint::run_from(rows, next);
        assert forall|i: int| 0 <= i < run.len() implies table::get(rows, (height + i) as u64)
            == Some(#[trigger] run[i]) by {
            if i > 0 {
                assert(run[i] == rest[i - 1]);
                assert((height + i) as u64 == (next + (i - 1)) as u64);
            }
        }
        assert((height + run.len()) as u64 == (next + rest.len()) as u64);
    }
}

/// A served summary is kept where the holder is behind it, waits for none, and
/// its founding recomputes to the holder's own republic; otherwise nothing
/// changes.
pub proof fn a_served_summary_is_of_the_own_republic(s: StateV, blob: SummaryV)
    ensures
        ({
            let rid = identity::republic_id_of(
                blob.founding_name,
                blob.rule_m,
                blob.rule_n,
                blob.founding_identities,
            );
            let wanted = (s.head is None || s.head->0.height < blob.upto)
                && s.pending_served_blob is None && rid == s.rid() && blob.republic_id == s.rid();
            &&& !wanted ==> s.summary_heard(blob) == s
            &&& wanted ==> s.summary_heard(blob) == (StateV {
                pending_served_blob: Some(blob),
                ..s
            }).re_anchoring()
        }),
{
}

/// Moving the votes of a holder that signs nothing leaves its chain alone.
pub proof fn lemma_unsigned_rebase(s: StateV)
    requires
        s.identity_sk is None,
    ensures
        s.rebasing().blocks == s.blocks,
        s.rebasing().head == s.head,
        s.rebasing().checkpoint_blob == s.checkpoint_blob,
        s.rebasing().identity_sk is None,
        s.rebasing().catchup_from == s.catchup_from,
{
    match s.target() {
        None => {},
        Some(target) => {
            let ids = sealing::stale_cuts(s.proposal_changes, s.height());
            let ready = StateV { votes_wait: false, ..s };
            lemma_unsigned_sweep(ready, ids);
            lemma_unsigned_resign(
                ready.sweeping(ids),
                sealing::ids_below(s.pending_sigs, target),
            );
        },
    }
}

/// Dropping cuts leaves the chain alone.
proof fn lemma_unsigned_sweep(s: StateV, ids: Seq<u64>)
    ensures
        s.sweeping(ids).blocks == s.blocks,
        s.sweeping(ids).head == s.head,
        s.sweeping(ids).checkpoint_blob == s.checkpoint_blob,
        s.sweeping(ids).identity_sk == s.identity_sk,
        s.sweeping(ids).catchup_from == s.catchup_from,
    decreases ids.len(),
{
    if ids.len() > 0 {
        lemma_unsigned_sweep(s, ids.drop_last());
    }
}

/// Clearing votes leaves the chain alone where nothing is signed.
proof fn lemma_unsigned_resign(s: StateV, ids: Seq<u64>)
    requires
        s.identity_sk is None,
    ensures
        s.resigning(ids).blocks == s.blocks,
        s.resigning(ids).head == s.head,
        s.resigning(ids).checkpoint_blob == s.checkpoint_blob,
        s.resigning(ids).identity_sk is None,
        s.resigning(ids).catchup_from == s.catchup_from,
    decreases ids.len(),
{
    if ids.len() > 0 && !s.vote_waits(ids[0]) {
        let cleared = StateV { pending_sigs: table::del(s.pending_sigs, ids[0]), ..s };
        assert(cleared.signing(ids[0]) == cleared);
        lemma_unsigned_resign(cleared, ids.skip(1));
    }
}

/// A waiting summary is anchored on where the block right above it is held and
/// the whole run above it verifies under it. A holder that signs nothing then
/// has that summary, exactly that run, and the head that the run verifies to;
/// the summary waits no more. One that does not verify, or that the chain has
/// passed, is dropped, and the chain stays as it is.
pub proof fn a_holder_starts_from_a_verified_summary(s: StateV, blob: SummaryV)
    requires
        s.pending_served_blob == Some(blob),
        s.identity_sk is None,
    ensures
        ({
            let w = s.re_anchoring();
            let run = checkpoint::run_from(s.pending_blocks, (blob.upto + 1) as u64);
            let passed = (s.head is Some && s.head->0.height > blob.upto) || blob.upto
                == u64::MAX;
            let held = table::get(s.pending_blocks, (blob.upto + 1) as u64) is Some;
            let proved = walk::walked_suffix(blob, run, s.rid());
            &&& !passed && held && proved is Ok ==> {
                &&& w.blocks == run
                &&& w.head == Some(proved->Ok_0.head)
                &&& w.checkpoint_blob == Some(blob)
            }
            &&& !passed && !held ==> w == s
            &&& passed || (held && proved is Err) ==> {
                &&& w.pending_served_blob is None
                &&& w.blocks == s.blocks
                &&& w.head == s.head
                &&& w.checkpoint_blob == s.checkpoint_blob
                &&& w.effects == s.effects
            }
        }),
{
    let run = checkpoint::run_from(s.pending_blocks, (blob.upto + 1) as u64);
    match walk::walked_suffix(blob, run, s.rid()) {
        Ok(w) => {
            lemma_anchored_at(s, blob, run, w.head);
        },
        Err(e) => {},
    }
}

/// Being anchored puts the summary and its suffix in place.
proof fn lemma_anchored_at(s: StateV, blob: SummaryV, suffix: Seq<BlockV>, head: HeadV)
    requires
        s.identity_sk is None,
    ensures
        s.anchored_at(blob, suffix, head).blocks == suffix,
        s.anchored_at(blob, suffix, head).head == Some(head),
        s.anchored_at(blob, suffix, head).checkpoint_blob == Some(blob),
{
    let placed = StateV {
        blocks: suffix,
        head: Some(head),
        pending_served_blob: None,
        pending_blocks: table::above(s.pending_blocks, head.height),
        ..s.anchored_on(Some(blob))
    };
    sealing::lemma_chain_applied_frame(placed);
    let moved = placed.chain_applied();
    lemma_suffix_told(moved, suffix);
    let told = moved.suffix_told(suffix);
    let refreshed = if checkpoint::touches_org(suffix) {
        told.doing(EffectV::OrgApplied)
    } else {
        told
    };
    lemma_unsigned_rebase(refreshed);
}

/// Telling of a suffix leaves the chain alone.
proof fn lemma_suffix_told(s: StateV, blocks: Seq<BlockV>)
    ensures
        s.suffix_told(blocks).blocks == s.blocks,
        s.suffix_told(blocks).head == s.head,
        s.suffix_told(blocks).checkpoint_blob == s.checkpoint_blob,
        s.suffix_told(blocks).identity_sk == s.identity_sk,
    decreases blocks.len(),
{
    if blocks.len() > 0 {
        lemma_suffix_told(s, blocks.drop_last());
    }
}

/// What the blocks of an adopted suffix decided is told to the frontends, each
/// decision once and in order; and the organization is looked at anew where one
/// of them changed it.
pub proof fn an_adopted_suffix_is_told_in_order(s: StateV, blocks: Seq<BlockV>)
    ensures
        s.suffix_told(blocks).effects == s.effects + blocks.filter(
            |b: BlockV| b.change is Applied,
        ).map_values(
            |b: BlockV|
                EffectV::Emit {
                    event: EventV::Applied {
                        id: b.change->Applied_proposal_id,
                        surface: b.change->Applied_surface,
                    },
                },
        ),
        checkpoint::touches_org(blocks) <==> exists|i: int|
            0 <= i < blocks.len() && (#[trigger] blocks[i]).change is Applied
                && blocks[i].change->Applied_surface == Surface::Organization,
    decreases blocks.len(),
{
    reveal(Seq::filter);
    let pass = |b: BlockV| b.change is Applied;
    let f = |b: BlockV|
        EffectV::Emit {
            event: EventV::Applied {
                id: b.change->Applied_proposal_id,
                surface: b.change->Applied_surface,
            },
        };
    let told = blocks.filter(pass).map_values(f);
    if blocks.len() == 0 {
        assert(s.effects + told =~= s.effects);
    } else {
        let front = blocks.drop_last();
        let top = blocks.last();
        an_adopted_suffix_is_told_in_order(s, front);
        let less = front.filter(pass);
        if pass(top) {
            assert(told =~= less.map_values(f).push(f(top)));
            assert(s.effects + told =~= (s.effects + less.map_values(f)).push(f(top)));
        }
        assert(blocks[blocks.len() - 1] == top);
        if checkpoint::touches_org(front) {
            let i = choose|i: int|
                0 <= i < front.len() && (#[trigger] front[i]).change is Applied
                    && front[i].change->Applied_surface == Surface::Organization;
            assert(blocks[i] == front[i]);
        }
        if exists|i: int|
            0 <= i < blocks.len() && (#[trigger] blocks[i]).change is Applied
                && blocks[i].change->Applied_surface == Surface::Organization {
            let i = choose|i: int|
                0 <= i < blocks.len() && (#[trigger] blocks[i]).change is Applied
                    && blocks[i].change->Applied_surface == Surface::Organization;
            if i < front.len() {
                assert(front[i] == blocks[i]);
            }
        }
    }
}

/// A cut that is registered under another id already is not signed under a
/// second one, and an own signature that stands is not made again.
pub proof fn a_cut_is_signed_once(s: StateV, id: u64, upto: u64, state_hash: Seq<char>, i: int)
    ensures
        0 <= i < s.proposal_changes.len() && s.proposal_changes[i].0 != id
            && s.proposal_changes[i].1 == (ChangeV::Checkpoint { upto, state_hash })
            ==> s.cut_heard(id, upto, state_hash).effects == s.effects && s.cut_heard(
            id,
            upto,
            state_hash,
        ).proposal_changes == s.proposal_changes,
        (table::get(s.pending_sigs, id) matches Some(held) && s.head is Some && held.height
            == s.head->0.height + 1 && exists|k: int|
            0 <= k < held.sigs.len() && (#[trigger] held.sigs[k]).member == s.me())
            ==> s.cut_heard(id, upto, state_hash).effects == s.effects,
{
    let change = ChangeV::Checkpoint { upto, state_hash };
    if 0 <= i < s.proposal_changes.len() && s.proposal_changes[i].0 != id
        && s.proposal_changes[i].1 == change {
        assert(checkpoint::named_elsewhere(s.proposal_changes, id, change));
    }
}

} // verus!
