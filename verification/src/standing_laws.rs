//! What becomes of open votes as the chain moves: which are settled, dropped,
//! moved or signed anew, and what a holder without a key then holds.

use crate::cut_laws;
use crate::governance;
use crate::membership;
use crate::model::{AttestationV, BlockV, ChangeV, MembershipOp, Surface};
use crate::reading_laws;
use crate::return_laws;
use crate::sealing;
use crate::signers;
use crate::state::{EffectV, EventV, PendingV, ProposalState, RecordV, StateV};
use crate::sync;
use crate::table;
use vstd::prelude::*;

verus! {

/// How many membership changes are registered is how many there are.
pub proof fn pending_memberships_are_counted(changes: Seq<(u64, ChangeV)>)
    ensures
        membership::memberships_pending(changes) == changes.filter(
            |r: (u64, ChangeV)| r.1 is Membership,
        ).len(),
    decreases changes.len(),
{
    reveal(Seq::filter);
    if changes.len() > 0 {
        pending_memberships_are_counted(changes.drop_last());
    }
}

/// A membership proposal from the wire is taken where its id is in reach and
/// free for it and there is room: for one pending change for each seat and
/// eight more. One that is not taken changes nothing; one that is taken is
/// registered as it came.
pub proof fn a_heard_membership_is_registered_as_it_came(
    s: StateV,
    id: u64,
    change: ChangeV,
    well_written: bool,
)
    requires
        change is Membership,
    ensures
        ({
            let w = s.membership_heard(id, change, well_written);
            let room = match s.replica {
                Some(r) => r.roster.len() + 8,
                None => 16,
            };
            let taken = {
                &&& id <= s.next_id + 4096 || s.next_id + 4096 > u64::MAX
                &&& s.proposal_changes.filter(|r: (u64, ChangeV)| r.1 is Membership).len() < room
                    || table::get(s.proposal_changes, id) is Some
                &&& match table::get(s.proposal_changes, id) {
                    Some(c) => c == change,
                    None => match table::get(s.proposals, id) {
                        Some(p) => {
                            &&& p.surface == Surface::Organization
                            &&& p.payload.text("member"@) == Some(change->Membership_member)
                            &&& p.payload.text("op"@) == Some(
                                if change->Membership_op == MembershipOp::Restored {
                                    "restore_member"@
                                } else {
                                    "add_member"@
                                },
                            )
                        },
                        None => true,
                    },
                }
            };
            &&& !taken ==> w == s
            &&& taken && (s.identity_sk is None || change->Membership_consent is None) ==> {
                &&& table::get(w.proposal_changes, id) == Some(change)
                &&& w.effects == s.effects
                &&& w.blocks == s.blocks
                &&& id < u64::MAX ==> w.next_id > id
            }
        }),
{
    pending_memberships_are_counted(s.proposal_changes);
    let minted = s.minting_past(id);
    let put = StateV {
        proposal_changes: table::put(minted.proposal_changes, id, change),
        ..minted
    };
    table::reading_a_put(s.proposal_changes, id, change, id);
    let checked = put.reverifying(id);
    assert(table::get(checked.proposal_changes, id) == Some(change));
    if s.identity_sk is None {
        assert(checked.signing(id) == checked);
    }
    if change->Membership_consent is None {
        assert(!checked.attestable(id, well_written));
    }
}

/// Was that key ever a seat's? The register says so exactly where it was one
/// at the founding, by a restore in a held block, or in the summary.
pub proof fn the_chain_is_the_register_of_keys(s: StateV, pk: Seq<char>)
    ensures
        s.anchor_seen(pk) <==> pk.len() > 0 && return_laws::once_a_key(s, pk),
{
    if membership::block_has_key(s.blocks, pk) {
        let i = choose|i: int|
            0 <= i < s.blocks.len() && membership::re_anchors((#[trigger] s.blocks[i]).change, pk);
        assert(s.blocks[i].change matches ChangeV::Membership { op, nostr_pk, .. } && op
            == MembershipOp::Restored && nostr_pk == Some(pk));
    }
    if exists|i: int|
        0 <= i < s.blocks.len() && ((#[trigger] s.blocks[i]).change matches ChangeV::Membership {
            op,
            nostr_pk,
            ..
        } && op == MembershipOp::Restored && nostr_pk == Some(pk)) {
        let i = choose|i: int|
            0 <= i < s.blocks.len() && ((
            #[trigger] s.blocks[i]).change matches ChangeV::Membership { op, nostr_pk, .. } && op
                == MembershipOp::Restored && nostr_pk == Some(pk));
        assert(membership::re_anchors(s.blocks[i].change, pk));
    }
}

/// Checking the collected signatures again verifies exactly those that approve
/// the proposal, beside those that were verified; the signatures stay.
pub proof fn what_outran_its_proposal_is_checked_again(s: StateV, id: u64, m: Seq<char>)
    requires
        table::get(s.pending_sigs, id) is Some,
    ensures
        ({
            let held = table::get(s.pending_sigs, id)->0;
            let now = table::get(s.reverifying(id).pending_sigs, id);
            &&& now is Some
            &&& now->0.height == held.height
            &&& now->0.sigs == held.sigs
            &&& now->0.verified.contains(m) <==> (held.verified.contains(m) || exists|i: int|
                0 <= i < held.sigs.len() && (#[trigger] held.sigs[i]).member == m && s.approves(
                    id,
                    held.height,
                    held.sigs[i],
                ))
        }),
{
    let held = table::get(s.pending_sigs, id)->0;
    let next = PendingV {
        verified: s.rechecked(id, held.height, held.verified, held.sigs),
        ..held
    };
    table::reading_a_put(s.pending_sigs, id, next, id);
    lemma_rechecked(s, id, held.height, held.verified, held.sigs, m);
}

/// Who is verified after a check.
proof fn lemma_rechecked(
    s: StateV,
    id: u64,
    height: u64,
    verified: Seq<Seq<char>>,
    sigs: Seq<AttestationV>,
    m: Seq<char>,
)
    ensures
        s.rechecked(id, height, verified, sigs).contains(m) <==> (verified.contains(m) || exists|
            i: int,
        |
            0 <= i < sigs.len() && (#[trigger] sigs[i]).member == m && s.approves(
                id,
                height,
                sigs[i],
            )),
    decreases sigs.len(),
{
    if sigs.len() > 0 {
        let front = sigs.drop_last();
        let top = sigs.last();
        lemma_rechecked(s, id, height, verified, front, m);
        lemma_rechecked(s, id, height, verified, front, top.member);
        let rest = s.rechecked(id, height, verified, front);
        crate::read_laws::lemma_insert(rest, top.member);
        assert(sigs[sigs.len() - 1] == top);
        if exists|i: int|
            0 <= i < front.len() && (#[trigger] front[i]).member == m && s.approves(
                id,
                height,
                front[i],
            ) {
            let i = choose|i: int|
                0 <= i < front.len() && (#[trigger] front[i]).member == m && s.approves(
                    id,
                    height,
                    front[i],
                );
            assert(sigs[i] == front[i]);
        }
        if exists|i: int|
            0 <= i < sigs.len() && (#[trigger] sigs[i]).member == m && s.approves(
                id,
                height,
                sigs[i],
            ) {
            let i = choose|i: int|
                0 <= i < sigs.len() && (#[trigger] sigs[i]).member == m && s.approves(
                    id,
                    height,
                    sigs[i],
                );
            if i < front.len() {
                assert(front[i] == sigs[i]);
            }
        }
    }
}

/// The ids under which a change is registered are those, in order.
pub proof fn a_change_is_found_under_its_ids(changes: Seq<(u64, ChangeV)>, sealed: ChangeV)
    ensures
        governance::ids_naming(changes, sealed) == changes.filter(
            |r: (u64, ChangeV)| r.1 == sealed,
        ).map_values(|r: (u64, ChangeV)| r.0),
    decreases changes.len(),
{
    reveal(Seq::filter);
    let pass = |r: (u64, ChangeV)| r.1 == sealed;
    let f = |r: (u64, ChangeV)| r.0;
    if changes.len() > 0 {
        a_change_is_found_under_its_ids(changes.drop_last(), sealed);
    }
    assert(governance::ids_naming(changes, sealed) =~= changes.filter(pass).map_values(f));
}

/// The open cards of a membership change are the cards that name it, in order.
pub proof fn a_membership_finds_its_open_cards(
    cards: Seq<(u64, RecordV)>,
    op: MembershipOp,
    member: Seq<char>,
)
    ensures
        governance::open_cards_of(cards, op, member) == cards.filter(
            |r: (u64, RecordV)|
                {
                    &&& r.1.state == ProposalState::Proposed
                    &&& r.1.surface == Surface::Organization
                    &&& r.1.payload.text("op"@) == Some(
                        if op == MembershipOp::Restored {
                            "restore_member"@
                        } else {
                            "add_member"@
                        },
                    )
                    &&& r.1.payload.text("member"@) == Some(member)
                },
        ).map_values(|r: (u64, RecordV)| r.0),
    decreases cards.len(),
{
    reveal(Seq::filter);
    let pass = |r: (u64, RecordV)|
        {
            &&& r.1.state == ProposalState::Proposed
            &&& r.1.surface == Surface::Organization
            &&& r.1.payload.text("op"@) == Some(
                if op == MembershipOp::Restored {
                    "restore_member"@
                } else {
                    "add_member"@
                },
            )
            &&& r.1.payload.text("member"@) == Some(member)
        };
    let f = |r: (u64, RecordV)| r.0;
    if cards.len() > 0 {
        a_membership_finds_its_open_cards(cards.drop_last(), op, member);
    }
    assert(governance::open_cards_of(cards, op, member) =~= cards.filter(pass).map_values(f));
}

/// Cards that are applied read so, each is announced once, in order, and every
/// other card stays.
pub proof fn applied_cards_are_announced(s: StateV, ids: Seq<u64>, id: u64)
    ensures
        ({
            let w = s.cards_applied(ids);
            &&& w.effects == s.effects + ids.map_values(
                |i: u64|
                    EffectV::Emit {
                        event: EventV::Applied { id: i, surface: Surface::Organization },
                    },
            )
            &&& match table::get(s.proposals, id) {
                Some(p) => table::get(w.proposals, id) == Some(
                    if ids.contains(id) {
                        RecordV { state: ProposalState::Applied, ..p }
                    } else {
                        p
                    },
                ),
                None => table::get(w.proposals, id) is None,
            }
            &&& w == StateV { proposals: w.proposals, effects: w.effects, ..s }
        }),
    decreases ids.len(),
{
    let f = |i: u64|
        EffectV::Emit { event: EventV::Applied { id: i, surface: Surface::Organization } };
    if ids.len() == 0 {
        assert(s.effects + ids.map_values(f) =~= s.effects);
    } else {
        let front = ids.drop_last();
        let top = ids.last();
        applied_cards_are_announced(s, front, id);
        applied_cards_are_announced(s, front, top);
        let rest = s.cards_applied(front);
        assert(s.effects + ids.map_values(f) =~= (s.effects + front.map_values(f)).push(f(top)));
        match table::get(rest.proposals, top) {
            Some(p) => {
                let next = RecordV { state: ProposalState::Applied, ..p };
                table::reading_a_put(rest.proposals, top, next, id);
            },
            None => {},
        }
        assert(ids.contains(id) <==> front.contains(id) || id == top) by {
            if front.contains(id) {
                let k = choose|k: int| 0 <= k < front.len() && front[k] == id;
                assert(ids[k] == id);
            }
            if id == top {
                assert(ids[ids.len() - 1] == id);
            }
            if ids.contains(id) && id != top {
                let k = choose|k: int| 0 <= k < ids.len() && ids[k] == id;
                assert(front[k] == id);
            }
        }
    }
}

/// The cuts that can no longer seal are those below the height, in order; the
/// votes that have to be moved are those for lower heights, in order.
pub proof fn what_is_left_behind_is_found(
    changes: Seq<(u64, ChangeV)>,
    pending: Seq<(u64, PendingV)>,
    height: u64,
)
    ensures
        sealing::stale_cuts(changes, height) == changes.filter(
            |r: (u64, ChangeV)| r.1 is Checkpoint && r.1->Checkpoint_upto < height,
        ).map_values(|r: (u64, ChangeV)| r.0),
        sealing::ids_below(pending, height) == pending.filter(
            |r: (u64, PendingV)| r.1.height < height,
        ).map_values(|r: (u64, PendingV)| r.0),
{
    lemma_stale(changes, height);
    lemma_below(pending, height);
}

/// The stale cuts, in order.
proof fn lemma_stale(changes: Seq<(u64, ChangeV)>, height: u64)
    ensures
        sealing::stale_cuts(changes, height) == changes.filter(
            |r: (u64, ChangeV)| r.1 is Checkpoint && r.1->Checkpoint_upto < height,
        ).map_values(|r: (u64, ChangeV)| r.0),
    decreases changes.len(),
{
    reveal(Seq::filter);
    let pass = |r: (u64, ChangeV)| r.1 is Checkpoint && r.1->Checkpoint_upto < height;
    let f = |r: (u64, ChangeV)| r.0;
    if changes.len() > 0 {
        lemma_stale(changes.drop_last(), height);
    }
    assert(sealing::stale_cuts(changes, height) =~= changes.filter(pass).map_values(f));
}

/// The votes below a height, in order.
proof fn lemma_below(pending: Seq<(u64, PendingV)>, height: u64)
    ensures
        sealing::ids_below(pending, height) == pending.filter(
            |r: (u64, PendingV)| r.1.height < height,
        ).map_values(|r: (u64, PendingV)| r.0),
    decreases pending.len(),
{
    reveal(Seq::filter);
    let pass = |r: (u64, PendingV)| r.1.height < height;
    let f = |r: (u64, PendingV)| r.0;
    if pending.len() > 0 {
        lemma_below(pending.drop_last(), height);
    }
    assert(sealing::ids_below(pending, height) =~= pending.filter(pass).map_values(f));
}

/// A vote that is moved is cleared of the signatures for lower heights and
/// signed anew by this holder where it approved it itself and its card is
/// open, first of all the votes that are moved; one that it did not approve,
/// or that is not open, is only cleared.
pub proof fn a_moved_vote_is_signed_anew_only_if_approved(s: StateV, ids: Seq<u64>)
    requires
        ids.len() > 0,
        !s.vote_waits(ids[0]),
    ensures
        ({
            let id = ids[0];
            let cleared = StateV { pending_sigs: table::del(s.pending_sigs, id), ..s };
            let again = s.own_approvals.contains(id) && table::get(s.proposals, id) is Some
                && table::get(s.proposals, id)->0.state == ProposalState::Proposed;
            &&& table::get(cleared.pending_sigs, id) is None
            &&& !again ==> s.resigning(ids) == cleared.resigning(ids.skip(1))
            &&& again && cleared.signing(id).height() >= s.height() ==> s.resigning(ids)
                == cleared.signing(id).resigning(ids.skip(1))
        }),
{
    table::reading_a_removal(s.pending_sigs, ids[0], ids[0]);
}

/// What a holder that coordinates a return shows while the vote runs: the
/// member, how many voices are needed, the seats, and as approving those whose
/// signatures verified, and the member itself where it consented.
pub proof fn a_return_in_progress_shows_who_approved(s: StateV, id: u64)
    requires
        s.live_progress(id) is Some,
    ensures
        ({
            let r = s.live_progress(id)->0;
            let verified = match table::get(s.pending_sigs, id) {
                Some(p) => p.verified,
                None => Seq::empty(),
            };
            &&& s.head is Some
            &&& r.need == s.head->0.rule_m
            &&& table::get(s.proposal_changes, id) matches Some(
                ChangeV::Membership { op, member, nostr_pk, consent, .. },
            ) && {
                &&& op == MembershipOp::Restored
                &&& r.member == member
                &&& r.to == nostr_pk
                &&& exists|k: int|
                    0 <= k < s.pending_recovery.len() && (
                    #[trigger] s.pending_recovery[k]).member == member
                &&& forall|m: Seq<char>| #[trigger]
                    r.approved.contains(m) <==> (verified.contains(m) || (consent is Some && m
                        == member))
            }
        }),
{
    let verified = match table::get(s.pending_sigs, id) {
        Some(p) => p.verified,
        None => Seq::empty(),
    };
    match table::get(s.proposal_changes, id) {
        Some(ChangeV::Membership { member, .. }) => {
            crate::read_laws::lemma_insert(verified, member);
            lemma_waits(s.pending_recovery, member);
        },
        _ => {},
    }
}

/// A request that is found waits.
proof fn lemma_waits(list: Seq<crate::state::RecoveryV>, member: Seq<char>)
    ensures
        crate::recovery::recovery_of(list, member) is Some ==> exists|k: int|
            0 <= k < list.len() && (#[trigger] list[k]).member == member,
    decreases list.len(),
{
    if list.len() > 0 {
        let rest = list.skip(1);
        lemma_waits(rest, member);
        if list[0].member == member {
            assert(list[0].member == member);
        } else if crate::recovery::recovery_of(rest, member) is Some {
            let k = choose|k: int| 0 <= k < rest.len() && (#[trigger] rest[k]).member == member;
            assert(list[k + 1].member == member);
        }
    }
}

/// What an applied block settles leaves the chain of a holder without a key
/// alone, unless the block is a cut.
proof fn lemma_unsigned_after(s: StateV, block: BlockV)
    requires
        s.identity_sk is None,
        !(block.change is Checkpoint),
    ensures
        s.after_applied(block).blocks == s.blocks,
        s.after_applied(block).head == s.head,
        s.after_applied(block).checkpoint_blob == s.checkpoint_blob,
        s.after_applied(block).identity_sk is None,
{
    lemma_settles_beside_the_chain(s, block);
    lemma_applied_in_two_steps(s, block);
    lemma_unsigned_from(s, s.block_settled(block), s.after_applied(block));
}

/// What an applied block brings is what it settles, and then the votes moved.
proof fn lemma_applied_in_two_steps(s: StateV, block: BlockV)
    ensures
        s.after_applied(block) == s.block_settled(block).rebasing(),
{
}

/// Moving the votes of a holder without a key, from a state with its chain.
proof fn lemma_unsigned_from(s: StateV, t: StateV, w: StateV)
    requires
        t.identity_sk is None,
        t.blocks == s.blocks,
        t.head == s.head,
        t.checkpoint_blob == s.checkpoint_blob,
        w == t.rebasing(),
    ensures
        w.blocks == s.blocks,
        w.head == s.head,
        w.checkpoint_blob == s.checkpoint_blob,
        w.identity_sk is None,
{
    cut_laws::lemma_unsigned_rebase(t);
}

/// What a block settles, but for a cut, stands beside the chain.
proof fn lemma_settles_beside_the_chain(s: StateV, block: BlockV)
    requires
        !(block.change is Checkpoint),
    ensures
        s.block_settled(block).blocks == s.blocks,
        s.block_settled(block).head == s.head,
        s.block_settled(block).checkpoint_blob == s.checkpoint_blob,
        s.block_settled(block).identity_sk == s.identity_sk,
{
    match block.change {
        ChangeV::Membership { .. } => {
            sealing::lemma_membership_frame(s, block.change);
        },
        _ => {},
    }
}

/// The blocks of another branch settle beside the chain, one after the other.
proof fn lemma_unsigned_each(s: StateV, blocks: Seq<BlockV>)
    requires
        s.identity_sk is None,
        forall|i: int| 0 <= i < blocks.len() ==> !((#[trigger] blocks[i]).change is Checkpoint),
    ensures
        s.after_each(blocks).blocks == s.blocks,
        s.after_each(blocks).head == s.head,
        s.after_each(blocks).checkpoint_blob == s.checkpoint_blob,
        s.after_each(blocks).identity_sk is None,
    decreases blocks.len(),
{
    if blocks.len() > 0 {
        let front = blocks.drop_last();
        assert forall|i: int| 0 <= i < front.len() implies !((
        #[trigger] front[i]).change is Checkpoint) by {
            assert(front[i] == blocks[i]);
        }
        assert(!(blocks[blocks.len() - 1].change is Checkpoint));
        lemma_unsigned_each(s, front);
        lemma_unsigned_after(s.after_each(front), blocks.last());
    }
}

/// A block that fits is the new top of a holder's chain, and a holder without a
/// key then has exactly one block more, unless the block is a cut.
pub proof fn a_fitting_block_is_the_new_top(s: StateV, block: BlockV)
    requires
        s.accepts(block),
        s.identity_sk is None,
        !(block.change is Checkpoint),
    ensures
        ({
            let w = s.next_applied(block);
            &&& w.blocks == s.blocks.push(block)
            &&& w.head is Some
            &&& w.head->0.height == block.height
            &&& s.catchup_from == Some(block.height) ==> w.catchup_from is None
        }),
{
    sealing::lemma_appended_head(s, block);
    let a = s.appending(block);
    assert(a.identity_sk is None);
    lemma_unsigned_after(a, block);
    lemma_catchup_kept(a, block);
}

/// What an applied block brings asks for nothing where nothing is signed.
proof fn lemma_catchup_kept(s: StateV, block: BlockV)
    requires
        s.identity_sk is None,
    ensures
        s.after_applied(block).catchup_from == s.catchup_from,
{
    sealing::lemma_after_applied_rises(s, block);
}

/// Where a block wins the tip, a holder without a key has it in the place of
/// the one that lost, and nothing else of the chain changes.
pub proof fn a_won_tip_takes_the_place_of_the_lost(s: StateV, block: BlockV)
    requires
        s.blocks.len() > 0,
        s.identity_sk is None,
        !(block.change is Checkpoint),
        s.walked_here(s.blocks.drop_last().push(block)) is Ok,
    ensures
        ({
            let w = s.tip_replaced(block);
            let chain = s.blocks.drop_last().push(block);
            &&& w.blocks == chain
            &&& w.head == Some(s.walked_here(chain)->Ok_0.head)
            &&& w.effects.last() == (EffectV::PersistChain {
                blob: s.checkpoint_blob,
                blocks: chain,
            })
        }),
{
    let chain = s.blocks.drop_last().push(block);
    let head = s.walked_here(chain)->Ok_0.head;
    let placed = StateV { blocks: chain, head: Some(head), head_moved_at: s.now, ..s };
    sealing::lemma_chain_applied_frame(placed);
    let applied = placed.chain_applied();
    let back = match signers::consumed_by(s.blocks.last().change) {
        Some(id) => applied.reopened(id),
        None => applied,
    };
    lemma_unsigned_after(back, block);
}

/// A holder without a key that moves onto another branch without cuts has the
/// common part and the whole of that branch, and nothing of its own from the
/// fork on; it keeps no candidates and asks for what is above.
pub proof fn a_holder_moves_onto_the_whole_branch(s: StateV, fork: u64, run: Seq<BlockV>)
    requires
        s.identity_sk is None,
        forall|i: int| 0 <= i < run.len() ==> !((#[trigger] run[i]).change is Checkpoint),
        s.walked_here(s.blocks.filter(|b: BlockV| b.height < fork) + run) is Ok,
    ensures
        ({
            let w = s.moved_onto(fork, run);
            let chain = s.blocks.filter(|b: BlockV| b.height < fork) + run;
            &&& w.blocks == chain
            &&& w.head == Some(s.walked_here(chain)->Ok_0.head)
            &&& w.fork_candidates.len() == 0
            &&& w.diverged.len() == 0
            &&& w.effects.contains(
                EffectV::PersistChain { blob: w.checkpoint_blob, blocks: chain },
            )
            &&& chain.len() > 0 && w.head->0.height < u64::MAX ==> w.catchup_from == Some(
                (w.head->0.height + 1) as u64,
            )
        }),
{
    crate::fork_laws::lemma_below(s.blocks, fork);
    let chain = s.blocks.filter(|b: BlockV| b.height < fork) + run;
    let dropped = sealing::blocks_from(s.blocks, fork);
    reading_laws::only_a_verified_chain_is_adopted(s, chain);
    let walk = s.walked_here(chain)->Ok_0;
    let taken = (StateV {
        blocks: chain,
        head: Some(walk.head),
        walk: Some(walk),
        ..s
    }).minting_past_chain();
    sealing::lemma_chain_applied_frame(taken);
    let adopted = s.adopting(chain);
    assert(adopted.identity_sk is None);
    crate::fork_laws::only_what_was_dropped_goes_back(adopted, dropped, run, 0);
    let back = adopted.reopened_each(dropped, run);
    lemma_unsigned_each(back, run);
    let after = back.after_each(run);
    let ready = StateV {
        pending_sigs: Seq::empty(),
        votes_wait: false,
        resign_waits: false,
        ..after
    };
    lemma_unsigned_signing(ready, sync::open_among(ready.proposals, ready.own_approvals));
    let signed = after.resigned_all();
    let clean = (StateV {
        fork_candidates: Seq::empty(),
        diverged: Seq::empty(),
        ..signed
    }).persisting();
    let w = s.moved_onto(fork, run);
    assert(clean.effects.last() == (EffectV::PersistChain {
        blob: signed.checkpoint_blob,
        blocks: chain,
    }));
    assert(w.effects[clean.effects.len() - 1] == clean.effects.last());
}

/// Signing without a key signs nothing.
proof fn lemma_unsigned_signing(s: StateV, ids: Seq<u64>)
    requires
        s.identity_sk is None,
    ensures
        s.signing_each(ids) == s,
    decreases ids.len(),
{
    if ids.len() > 0 {
        lemma_unsigned_signing(s, ids.drop_last());
    }
}

/// After a re-base the own approvals of what is still open are signed anew, in
/// order: those ids, and those alone, whose card is open.
pub proof fn open_approvals_are_found_in_order(cards: Seq<(u64, RecordV)>, ids: Seq<u64>)
    ensures
        sync::open_among(cards, ids) == ids.filter(
            |id: u64|
                table::get(cards, id) is Some && table::get(cards, id)->0.state
                    == ProposalState::Proposed,
        ),
    decreases ids.len(),
{
    reveal(Seq::filter);
    if ids.len() > 0 {
        open_approvals_are_found_in_order(cards, ids.drop_last());
    }
}

} // verus!
