//! Wiki patches when the base moves: the host is asked about every open one
//! before any of them is signed again, and one that was left behind is closed
//! without a vote and never signed.

use crate::model::{BlockV, ChangeV, Surface};
use crate::patches;
use crate::sealing;
use crate::silence_laws;
use crate::state::{EffectV, ProposalState, RecordV, StateV};
use crate::sync;
use crate::table;
use crate::votes;
use vstd::prelude::*;

verus! {

/// Every open patch is among those that the host is asked about, but for the
/// one that moved the base.
pub proof fn every_open_patch_is_asked_about(
    cards: Seq<(u64, RecordV)>,
    except: Option<u64>,
    id: u64,
)
    requires
        patches::open_patch(cards, id),
        except != Some(id),
    ensures
        patches::open_patches(cards, except).contains(id),
    decreases cards.len(),
{
    let out = patches::open_patches(cards, except);
    let rest = patches::open_patches(cards.drop_last(), except);
    if cards.last().0 == id {
        assert(out[out.len() - 1] == id);
    } else {
        every_open_patch_is_asked_about(cards.drop_last(), except, id);
        let k = choose|k: int| 0 <= k < rest.len() && rest[k] == id;
        assert(out[k] == id);
    }
}

/// Is the host asked about `id` among what was added on the way from `s` to `t`?
pub open spec fn asked_about(s: StateV, t: StateV, id: u64) -> bool {
    exists|i: int|
        s.effects.len() <= i < t.effects.len() && asks_about(#[trigger] t.effects[i], id)
}

/// Does that effect ask the host about `id`?
pub open spec fn asks_about(effect: EffectV, id: u64) -> bool {
    match effect {
        EffectV::WikiMoved { open, .. } => open.contains(id),
        _ => false,
    }
}

/// Does none of what was added on the way from `s` to `t` approve `id`?
pub open spec fn not_approved(s: StateV, t: StateV, id: u64) -> bool {
    &&& silence_laws::still_to_do(s, t)
    &&& forall|i: int|
        s.effects.len() <= i < t.effects.len() ==> !silence_laws::approves(
            #[trigger] t.effects[i],
            id,
        )
}

/// Appending a block that moves the wiki base asks about every other open patch.
proof fn lemma_append_asks(s: StateV, block: BlockV, id: u64)
    requires
        s.accepts(block),
        moves_base(block, id),
        patches::open_patch(s.proposals, id),
        id < s.next_id,
    ensures
        silence_laws::barred(s.appending(block), id),
        s.appending(block).wiki_asked > 0,
        asked_about(s, s.appending(block), id),
        not_approved(s, s.appending(block), id),
{
    let payload = block.change->Applied_payload;
    let proposal_id = block.change->proposal_id;
    let open = patches::open_patches(s.proposals, Some(proposal_id));
    every_open_patch_is_asked_about(s.proposals, Some(proposal_id), id);
    let appended = s.appending(block);
    sealing::lemma_appended_head(s, block);
    assert(appended.proposals == s.proposals);
    assert(appended.effects.last() == (EffectV::WikiMoved { by: Some(payload), open }));
    assert(asks_about(appended.effects[appended.effects.len() - 1], id));
}

/// What is said of the way to `b` holds on to `c`, where nothing on the way
/// there approves a barred `id`.
proof fn lemma_further(a: StateV, b: StateV, c: StateV, id: u64)
    requires
        asked_about(a, b, id),
        not_approved(a, b, id),
        silence_laws::barred(b, id),
        silence_laws::silent(b, c, id),
    ensures
        asked_about(a, c, id),
        not_approved(a, c, id),
        silence_laws::barred(c, id),
{
    let k = choose|k: int|
        a.effects.len() <= k < b.effects.len() && asks_about(#[trigger] b.effects[k], id);
    assert(c.effects[k] == b.effects[k]);
    assert forall|i: int| 0 <= i < a.effects.len() implies c.effects[i] == #[trigger] a.effects[i] by {
        assert(b.effects[i] == a.effects[i]);
    }
    assert forall|i: int|
        a.effects.len() <= i < c.effects.len() implies !silence_laws::approves(
        #[trigger] c.effects[i],
        id,
    ) by {
        if i < b.effects.len() {
            assert(c.effects[i] == b.effects[i]);
        }
    }
}

/// Does the block move the wiki base, by another proposal than `id`?
pub open spec fn moves_base(block: BlockV, id: u64) -> bool {
    match block.change {
        ChangeV::Applied { proposal_id, surface, .. } => surface == Surface::Memory && proposal_id
            != id,
        _ => false,
    }
}

/// A block that moves the wiki base asks about every other open patch, and
/// while it is applied and the votes are moved none of them is signed, whatever
/// else is signed and sealed along with it.
pub proof fn a_moved_base_asks_before_a_patch_is_signed(s: StateV, block: BlockV, id: u64)
    requires
        s.accepts(block),
        moves_base(block, id),
        patches::open_patch(s.proposals, id),
        id < s.next_id,
    ensures
        s.next_applied(block).wiki_asked > 0,
        asked_about(s, s.next_applied(block), id),
        not_approved(s, s.next_applied(block), id),
{
    let appended = s.appending(block);
    lemma_append_asks(s, block, id);
    let after = appended.after_applied(block);
    silence_laws::lemma_after_applied_silent(appended, block, id);
    lemma_further(s, appended, after, id);
    lemma_caught_up_silent(after, block.height, id);
    lemma_further(s, after, after.caught_up(block.height), id);
}

/// A block that moves the wiki base and was sealed here asks in the same way,
/// and waits itself: it is not told to the members before that.
pub proof fn a_sealed_patch_asks_before_a_patch_is_signed(
    s: StateV,
    block: BlockV,
    by: u64,
    id: u64,
)
    requires
        s.accepts(block),
        moves_base(block, id),
        patches::open_patch(s.proposals, id),
        id < s.next_id,
    ensures
        s.sealing(block, by).wiki_asked > 0,
        asked_about(s, s.sealing(block, by), id),
        not_approved(s, s.sealing(block, by), id),
        s.sealing(block, by).effects.last() == (EffectV::Sealed { id: by, block }),
{
    let written = lemma_written_asks(s, block, id);
    let applied = written.after_applied(block);
    silence_laws::lemma_after_applied_silent(written, block, id);
    lemma_further(s, written, applied, id);
    let settled = applied.forgetting(by);
    silence_laws::lemma_forgetting_one_silent(applied, by, id);
    lemma_further(s, applied, settled, id);
    let waiting = settled.doing(EffectV::Sealed { id: by, block });
    lemma_waiting_silent(settled, by, block, id);
    lemma_further(s, settled, waiting, id);
    assert(s.sealing(block, by) == waiting);
}

/// Handing the chain to the storage changes nothing of the question.
proof fn lemma_written_asks(s: StateV, block: BlockV, id: u64) -> (written: StateV)
    requires
        s.accepts(block),
        moves_base(block, id),
        patches::open_patch(s.proposals, id),
        id < s.next_id,
    ensures
        written == s.appending(block).persisting(),
        silence_laws::barred(written, id),
        written.wiki_asked > 0,
        asked_about(s, written, id),
        not_approved(s, written, id),
{
    let appended = s.appending(block);
    let written = appended.persisting();
    lemma_append_asks(s, block, id);
    lemma_persisting_silent(appended, id);
    lemma_further(s, appended, written, id);
    written
}

proof fn lemma_caught_up_silent(s: StateV, height: u64, id: u64)
    ensures
        silence_laws::silent(s, s.caught_up(height), id),
{
}

proof fn lemma_persisting_silent(s: StateV, id: u64)
    ensures
        silence_laws::silent(s, s.persisting(), id),
{
}

proof fn lemma_waiting_silent(s: StateV, by: u64, block: BlockV, id: u64)
    ensures
        silence_laws::silent(s, s.doing(EffectV::Sealed { id: by, block }), id),
{
}

/// A patch that the base left behind is closed without a vote against it: its
/// card is rejected and superseded, nobody is named for it, and what was
/// collected for it is gone.
pub proof fn a_patch_left_behind_is_closed_without_a_vote(s: StateV, ids: Seq<u64>, id: u64)
    requires
        ids.contains(id),
        patches::open_patch(s.proposals, id),
    ensures
        ({
            let t = s.retiring_each(ids);
            let before = table::get(s.proposals, id)->0;
            let after = table::get(t.proposals, id);
            &&& after is Some
            &&& after->0.state == ProposalState::Rejected
            &&& after->0.superseded
            &&& after->0.declined_by == before.declined_by
            &&& after->0.decliners == before.decliners
            &&& after->0.payload == before.payload
            &&& !table::has(t.pending_sigs, id)
            &&& !table::has(t.proposal_changes, id)
        }),
    decreases ids.len(),
{
    let front = ids.drop_last();
    let rest = s.retiring_each(front);
    if front.contains(id) {
        a_patch_left_behind_is_closed_without_a_vote(s, front, id);
        lemma_retiring_reads(rest, ids.last(), id);
    } else {
        let k = choose|k: int| 0 <= k < ids.len() && ids[k] == id;
        if k < front.len() {
            assert(front[k] == id);
        }
        a_card_that_is_not_named_stays(s, front, id);
        lemma_retiring_reads(rest, id, id);
    }
}

/// A card that is not named stays as it is, and so do its votes.
pub proof fn a_card_that_is_not_named_stays(s: StateV, ids: Seq<u64>, id: u64)
    requires
        !ids.contains(id),
    ensures
        table::get(s.retiring_each(ids).proposals, id) == table::get(s.proposals, id),
        table::get(s.retiring_each(ids).pending_sigs, id) == table::get(s.pending_sigs, id),
        table::get(s.retiring_each(ids).proposal_changes, id) == table::get(
            s.proposal_changes,
            id,
        ),
    decreases ids.len(),
{
    if ids.len() > 0 {
        let front = ids.drop_last();
        assert(ids[ids.len() - 1] != id);
        if front.contains(id) {
            let k = choose|k: int| 0 <= k < front.len() && front[k] == id;
            assert(ids[k] == id);
        }
        a_card_that_is_not_named_stays(s, front, id);
        lemma_retiring_reads(s.retiring_each(front), ids.last(), id);
    }
}

/// What retiring a patch does to the tables.
proof fn lemma_retiring_reads(s: StateV, other: u64, id: u64)
    ensures
        ({
            let t = s.retiring(other);
            &&& id != other || !patches::open_patch(s.proposals, id) ==> {
                &&& table::get(t.proposals, id) == table::get(s.proposals, id)
                &&& table::get(t.pending_sigs, id) == table::get(s.pending_sigs, id)
                &&& table::get(t.proposal_changes, id) == table::get(s.proposal_changes, id)
            }
            &&& id == other && patches::open_patch(s.proposals, id) ==> {
                let before = table::get(s.proposals, id)->0;
                let after = table::get(t.proposals, id);
                &&& after is Some
                &&& after->0 == (RecordV {
                    state: ProposalState::Rejected,
                    superseded: true,
                    voted: after->0.voted,
                    ..before
                })
                &&& !table::has(t.pending_sigs, id)
                &&& !table::has(t.proposal_changes, id)
            }
        }),
{
    if patches::open_patch(s.proposals, other) {
        let card = table::get(s.proposals, other)->0;
        let closed = RecordV { state: ProposalState::Rejected, superseded: true, ..card };
        let put = StateV { proposals: table::put(s.proposals, other, closed), ..s };
        table::reading_a_put(s.proposals, other, closed, id);
        table::reading_a_put(s.proposals, other, closed, other);
        match table::get(put.pending_sigs, other) {
            Some(v) => {
                table::reading_a_put(
                    put.proposals,
                    other,
                    RecordV { voted: votes::voices_with(closed.voted, v.sigs), ..closed },
                    id,
                );
            },
            None => {},
        }
        table::reading_a_removal(s.pending_sigs, other, id);
        table::reading_a_removal(s.proposal_changes, other, id);
    }
}

/// What retiring patches leaves alone.
proof fn lemma_retiring_each_frame(s: StateV, ids: Seq<u64>)
    ensures
        s.retiring_each(ids).effects == s.effects,
        s.retiring_each(ids).next_id == s.next_id,
        s.retiring_each(ids).own_approvals == s.own_approvals,
        s.retiring_each(ids).stored == s.stored,
    decreases ids.len(),
{
    if ids.len() > 0 {
        lemma_retiring_each_frame(s, ids.drop_last());
    }
}

/// Signing what does not include `id` is silent about it.
proof fn lemma_signing_each_silent(s: StateV, ids: Seq<u64>, id: u64)
    requires
        !ids.contains(id),
    ensures
        silence_laws::silent(s, s.signing_each(ids), id),
    decreases ids.len(),
{
    if ids.len() > 0 {
        let front = ids.drop_last();
        assert(ids[ids.len() - 1] != id);
        if front.contains(id) {
            let k = choose|k: int| 0 <= k < front.len() && front[k] == id;
            assert(ids[k] == id);
        }
        lemma_signing_each_silent(s, front, id);
        silence_laws::lemma_signing_silent(s.signing_each(front), ids.last(), id);
        silence_laws::lemma_silent_way(s, s.signing_each(front), s.signing_each(ids), id);
    }
}

/// What is not open is not among the open.
proof fn lemma_not_among(cards: Seq<(u64, RecordV)>, ids: Seq<u64>, id: u64)
    requires
        table::get(cards, id) is Some ==> table::get(cards, id)->0.state
            != ProposalState::Proposed,
    ensures
        !sync::open_among(cards, ids).contains(id),
    decreases ids.len(),
{
    if ids.len() > 0 {
        let rest = sync::open_among(cards, ids.drop_last());
        let out = sync::open_among(cards, ids);
        lemma_not_among(cards, ids.drop_last(), id);
        if out.contains(id) {
            let k = choose|k: int| 0 <= k < out.len() && out[k] == id;
            if k < rest.len() {
                assert(rest[k] == id);
            }
        }
    }
}

/// Applying what was held is silent.
proof fn lemma_draining_silent(s: StateV, id: u64)
    ensures
        silence_laws::silent(s, s.draining(), id),
    decreases s.pending_blocks.len(),
{
    if !s.votes_wait {
        match s.target() {
            None => {},
            Some(next) => match table::get(s.pending_blocks, next) {
                None => {},
                Some(block) => {
                    let taken = StateV { pending_blocks: table::del(s.pending_blocks, next), ..s };
                    sync::lemma_removal_shrinks(s.pending_blocks, next);
                    sync::lemma_next_applied_sync(taken, block);
                    assert(silence_laws::silent(s, taken, id));
                    let appended = taken.appending(block);
                    silence_laws::lemma_appending_silent(taken, block, id);
                    silence_laws::lemma_silent_way(s, taken, appended, id);
                    let applied = taken.next_applied(block);
                    if taken.accepts(block) {
                        let after = appended.after_applied(block);
                        silence_laws::lemma_after_applied_silent(appended, block, id);
                        silence_laws::lemma_silent_way(s, appended, after, id);
                        assert(silence_laws::silent(after, applied, id));
                        silence_laws::lemma_silent_way(s, after, applied, id);
                        lemma_draining_silent(applied, id);
                        silence_laws::lemma_silent_way(s, applied, applied.draining(), id);
                    } else {
                        assert(silence_laws::silent(applied, applied.trimmed(), id));
                        silence_laws::lemma_silent_way(s, applied, applied.trimmed(), id);
                    }
                },
            },
        }
    }
}

/// A patch that the base left behind is not signed again by what waited for the
/// answer: not when the votes are moved, and not with any block that is applied
/// after it.
pub proof fn a_patch_left_behind_is_not_signed_again(s: StateV, ids: Seq<u64>, id: u64)
    requires
        ids.contains(id),
        patches::open_patch(s.proposals, id),
        id < s.next_id,
    ensures
        not_approved(s, s.patches_settled(ids), id),
{
    let retired = s.retiring_each(ids);
    let told = StateV { wiki_asked: sync::lower(s.wiki_asked), ..retired };
    a_patch_left_behind_is_closed_without_a_vote(s, ids, id);
    lemma_retiring_each_frame(s, ids);
    assert(silence_laws::barred(told, id));
    if told.wiki_asked == 0 {
        let cleared = StateV {
            pending_sigs: Seq::empty(),
            votes_wait: false,
            resign_waits: false,
            ..told
        };
        let open = sync::open_among(cleared.proposals, cleared.own_approvals);
        lemma_not_among(cleared.proposals, cleared.own_approvals, id);
        lemma_signing_each_silent(cleared, open, id);
        silence_laws::lemma_rebasing_silent(told, id);
        let moved = if told.resign_waits {
            told.resigned_all()
        } else if told.votes_wait {
            told.rebasing()
        } else {
            told
        };
        assert(silence_laws::silent(told, cleared, id));
        silence_laws::lemma_silent_way(told, cleared, cleared.signing_each(open), id);
        assert(silence_laws::silent(told, moved, id));
        let going = StateV { drain_waits: false, ..moved };
        assert(silence_laws::silent(moved, going, id));
        lemma_draining_silent(going, id);
        silence_laws::lemma_silent_way(moved, going, going.draining(), id);
        let done = going.draining();
        assert(silence_laws::silent(done, done.persisting(), id));
        silence_laws::lemma_silent_way(moved, done, done.persisting(), id);
        silence_laws::lemma_silent_way(told, moved, moved.drained(), id);
    }
}

} // verus!
