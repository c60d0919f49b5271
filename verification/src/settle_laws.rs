//! What an appended block leaves behind: what it adds to the projection, which
//! votes it settles and announces, and when a request for it is answered.

use crate::fold;
use crate::history;
use crate::model::{BlockV, ChangeV, EntryV, SealedV, Surface};
use crate::patches;
use crate::projection;
use crate::projection::CardRefV;
use crate::reading_laws;
use crate::state::{EffectV, EventV, PendingV, ProposalState, RecordV, ReplicaV, StateV};
use crate::summary_laws;
use crate::table;
use crate::vote_laws;
use crate::walk;
use vstd::prelude::*;

verus! {

/// Cuts that can no longer seal lose their change and their signatures, each
/// is announced once, in order, and every other vote stays.
pub proof fn swept_cuts_are_announced(s: StateV, ids: Seq<u64>, id: u64)
    ensures
        ({
            let w = s.sweeping(ids);
            &&& w.effects == s.effects + ids.map_values(
                |i: u64| EffectV::Emit { event: EventV::CheckpointStale { id: i } },
            )
            &&& ids.contains(id) ==> {
                &&& table::get(w.proposal_changes, id) is None
                &&& table::get(w.pending_sigs, id) is None
            }
            &&& !ids.contains(id) ==> {
                &&& table::get(w.proposal_changes, id) == table::get(s.proposal_changes, id)
                &&& table::get(w.pending_sigs, id) == table::get(s.pending_sigs, id)
            }
            &&& w == StateV {
                proposal_changes: w.proposal_changes,
                pending_sigs: w.pending_sigs,
                effects: w.effects,
                ..s
            }
        }),
    decreases ids.len(),
{
    let f = |i: u64| EffectV::Emit { event: EventV::CheckpointStale { id: i } };
    if ids.len() == 0 {
        assert(s.effects + ids.map_values(f) =~= s.effects);
    } else {
        let front = ids.drop_last();
        let top = ids.last();
        swept_cuts_are_announced(s, front, id);
        let rest = s.sweeping(front);
        assert(s.effects + ids.map_values(f) =~= (s.effects + front.map_values(f)).push(f(top)));
        table::reading_a_removal(rest.proposal_changes, top, id);
        table::reading_a_removal(rest.pending_sigs, top, id);
        lemma_in_front(ids, id);
    }
}

/// What a list holds is its last item or stands before it.
proof fn lemma_in_front(ids: Seq<u64>, id: u64)
    requires
        ids.len() > 0,
    ensures
        ids.contains(id) <==> ids.drop_last().contains(id) || id == ids.last(),
{
    let front = ids.drop_last();
    if front.contains(id) {
        let k = choose|k: int| 0 <= k < front.len() && front[k] == id;
        assert(ids[k] == id);
    }
    if id == ids.last() {
        assert(ids[ids.len() - 1] == id);
    }
    if ids.contains(id) && id != ids.last() {
        let k = choose|k: int| 0 <= k < ids.len() && ids[k] == id;
        assert(front[k] == id);
    }
}

/// The ids of the cards, in order.
pub open spec fn ids_of(open: Seq<CardRefV>) -> Seq<u64> {
    open.map_values(|c: CardRefV| c.id)
}

/// The cards of decided proposals read applied, nothing is collected for them
/// any more, each is announced once, in order and with its surface, and every
/// other card and vote stays.
pub proof fn decided_cards_are_settled(s: StateV, open: Seq<CardRefV>, id: u64)
    ensures
        ({
            let w = s.cards_settled(open);
            &&& w.effects == s.effects + open.map_values(
                |c: CardRefV| EffectV::Emit { event: EventV::Applied { id: c.id, surface: c.surface } },
            )
            &&& ids_of(open).contains(id) ==> {
                &&& table::get(w.proposal_changes, id) is None
                &&& table::get(w.pending_sigs, id) is None
                &&& table::get(w.proposals, id) is Some ==> table::get(w.proposals, id)->0.state
                    == ProposalState::Applied
            }
            &&& !ids_of(open).contains(id) ==> {
                &&& table::get(w.proposal_changes, id) == table::get(s.proposal_changes, id)
                &&& table::get(w.pending_sigs, id) == table::get(s.pending_sigs, id)
                &&& table::get(w.proposals, id) == table::get(s.proposals, id)
            }
            &&& table::get(w.proposals, id) is Some <==> table::get(s.proposals, id) is Some
        }),
    decreases open.len(),
{
    let f = |c: CardRefV| EffectV::Emit { event: EventV::Applied { id: c.id, surface: c.surface } };
    if open.len() == 0 {
        assert(s.effects + open.map_values(f) =~= s.effects);
    } else {
        let front = open.drop_last();
        let top = open.last();
        decided_cards_are_settled(s, front, id);
        let rest = s.cards_settled(front);
        assert(s.effects + open.map_values(f) =~= (s.effects + front.map_values(f)).push(f(top)));
        assert(ids_of(open).drop_last() =~= ids_of(front));
        assert(ids_of(open).last() == top.id);
        lemma_in_front(ids_of(open), id);
        lemma_decided(rest, top.id, id);
    }
}

/// One card applied and its vote forgotten.
proof fn lemma_decided(s: StateV, top: u64, id: u64)
    ensures
        ({
            let w = s.card_applied(top).forgetting(top);
            &&& w.effects == s.effects
            &&& table::get(w.proposals, id) is Some <==> table::get(s.proposals, id) is Some
            &&& id == top ==> {
                &&& table::get(w.proposal_changes, id) is None
                &&& table::get(w.pending_sigs, id) is None
                &&& table::get(w.proposals, id) is Some ==> table::get(w.proposals, id)->0.state
                    == ProposalState::Applied
            }
            &&& id != top ==> {
                &&& table::get(w.proposal_changes, id) == table::get(s.proposal_changes, id)
                &&& table::get(w.pending_sigs, id) == table::get(s.pending_sigs, id)
                &&& table::get(w.proposals, id) == table::get(s.proposals, id)
            }
        }),
{
    let applied = s.card_applied(top);
    match table::get(s.proposals, top) {
        Some(p) => {
            let next = RecordV { state: ProposalState::Applied, ..p };
            table::reading_a_put(s.proposals, top, next, id);
            table::reading_a_put(s.proposals, top, next, top);
        },
        None => {},
    }
    let other: u64 = if id != top {
        id
    } else if top == 0 {
        1
    } else {
        0
    };
    vote_laws::a_forgotten_vote_leaves_its_voters(applied, top, other);
}

/// A request that asks from a height is answered as soon as a block of that
/// height or a higher one stands, no sooner, and nothing else moves with it.
pub proof fn a_request_is_answered_at_its_height(s: StateV, height: u64)
    ensures
        ({
            let w = s.caught_up(height);
            &&& w == StateV { catchup_from: w.catchup_from, ..s }
            &&& match s.catchup_from {
                Some(from) => {
                    &&& from <= height ==> w.catchup_from is None
                    &&& height < from ==> w.catchup_from == Some(from)
                },
                None => w.catchup_from is None,
            }
        }),
{
}

/// After a block was applied no request is left that it answers.
pub proof fn an_applied_block_answers_the_request_for_it(s: StateV, block: BlockV)
    requires
        s.accepts(block),
    ensures
        s.next_applied(block).catchup_from is Some ==> block.height < s.next_applied(
            block,
        ).catchup_from->0,
{
}

/// Is that block an applied pool edit of the organization?
pub open spec fn edits_the_pool(block: BlockV) -> bool {
    match block.change {
        ChangeV::Applied { surface, payload, .. } => surface == Surface::Organization
            && payload.has_op("set_relays"@),
        _ => false,
    }
}

/// Only the pool edits that the organization applied move the pool: it is the
/// same with every other block left out.
pub proof fn only_the_organization_edits_the_pool(base: Seq<Seq<char>>, blocks: Seq<BlockV>)
    ensures
        history::pool_through(base, blocks) == history::pool_through(
            base,
            blocks.filter(|b: BlockV| edits_the_pool(b)),
        ),
    decreases blocks.len(),
{
    let keep = |b: BlockV| edits_the_pool(b);
    reveal(Seq::filter);
    if blocks.len() > 0 {
        let front = blocks.drop_last();
        only_the_organization_edits_the_pool(base, front);
        if keep(blocks.last()) {
            assert(blocks.filter(keep).drop_last() =~= front.filter(keep));
        }
    }
}

/// An appended block adds to the projection what it says and no more: an
/// applied entry at the end of its own surface and its signatures under its
/// id, and the roster reads as the head has it.
pub proof fn a_projection_follows_its_block(s: StateV, block: BlockV, t: Surface, id: u64)
    ensures
        ({
            let w = s.projecting(block);
            &&& match block.change {
                ChangeV::Applied { proposal_id, surface, payload } => {
                    &&& fold::entries_of(w.applied, t) == (if t == surface {
                        fold::entries_of(s.applied, t).push(EntryV { id: proposal_id, payload })
                    } else {
                        fold::entries_of(s.applied, t)
                    })
                    &&& table::get(w.applied_sigs, id) == (if id == proposal_id {
                        Some(block.sigs)
                    } else {
                        table::get(s.applied_sigs, id)
                    })
                },
                _ => w.applied == s.applied && w.applied_sigs == s.applied_sigs,
            }
            &&& match (s.head, s.replica) {
                (Some(head), Some(r)) => {
                    &&& w.replica is Some
                    &&& w.replica->0.identities == head.identities
                    &&& w.replica->0.roster.len() == head.identities.len()
                    &&& forall|i: int|
                        0 <= i < head.identities.len() ==> (#[trigger] w.replica->0.roster[i])
                            == head.identities[i].member
                    &&& w.replica->0 == ReplicaV {
                        identities: w.replica->0.identities,
                        roster: w.replica->0.roster,
                        ..r
                    }
                },
                _ => w.replica == s.replica,
            }
            &&& w.proposals == s.proposals
            &&& w.pending_sigs == s.pending_sigs
            &&& w.proposal_changes == s.proposal_changes
            &&& w.blocks == s.blocks
            &&& w.head == s.head
        }),
{
    match block.change {
        ChangeV::Applied { proposal_id, surface, payload } => {
            let entry = EntryV { id: proposal_id, payload };
            reading_laws::lemma_group_with(s.applied, surface, entry, t);
            table::reading_a_put(s.applied_sigs, proposal_id, block.sigs, id);
        },
        _ => {},
    }
}

/// A sealed block is handed on to be told later where a storage has to write
/// it first, and just so where the host was asked about wiki patches.
pub proof fn a_sealed_block_waits_to_be_told(s: StateV, block: BlockV, id: u64)
    requires
        s.accepts(block),
    ensures
        ({
            let settled = s.appending(block).persisting().after_applied(block).forgetting(id);
            s.stored || settled.wiki_asked > 0 ==> s.sealing(block, id).effects
                == settled.effects.push(EffectV::Sealed { id, block })
        }),
{
}

/// Nobody has approved what nobody signed, and a vote counts as many approvals
/// as it has verified voices, whatever else is open.
pub proof fn approvals_are_counted_for_their_own_vote(s: StateV, id: u64, other: u64, p: PendingV)
    ensures
        s.approval_count(id) == 0 <==> table::get(s.pending_sigs, id) is None || table::get(
            s.pending_sigs,
            id,
        )->0.verified.len() == 0,
        (StateV { pending_sigs: table::put(s.pending_sigs, other, p), ..s }).approval_count(id)
            == (if id == other {
            p.verified.len()
        } else {
            s.approval_count(id)
        }),
{
    table::reading_a_put(s.pending_sigs, other, p, id);
}

/// The highest id that blocks consumed was consumed by one of them, and no
/// other of them consumed a higher one; there is none exactly where no
/// proposal was applied.
pub proof fn the_top_id_is_the_highest_consumed(blocks: Seq<BlockV>)
    ensures
        match projection::top_applied(blocks) {
            Some(top) => {
                &&& exists|i: int|
                    0 <= i < blocks.len() && (#[trigger] blocks[i]).change is Applied
                        && blocks[i].change->proposal_id == top
                &&& forall|i: int|
                    0 <= i < blocks.len() && (#[trigger] blocks[i]).change is Applied
                        ==> blocks[i].change->proposal_id <= top
            },
            None => forall|i: int|
                0 <= i < blocks.len() ==> !((#[trigger] blocks[i]).change is Applied),
        },
    decreases blocks.len(),
{
    if blocks.len() > 0 {
        let front = blocks.drop_last();
        the_top_id_is_the_highest_consumed(front);
        assert(forall|i: int| 0 <= i < front.len() ==> front[i] == blocks[i]);
        assert(blocks.last() == blocks[blocks.len() - 1]);
        match projection::top_applied(front) {
            Some(top) => {
                let i = choose|i: int|
                    0 <= i < front.len() && (#[trigger] front[i]).change is Applied
                        && front[i].change->proposal_id == top;
                assert(blocks[i].change is Applied);
            },
            None => {},
        }
        assert forall|i: int|
            0 <= i < blocks.len() && (#[trigger] blocks[i]).change is Applied implies
            projection::top_applied(blocks) is Some && blocks[i].change->proposal_id
            <= projection::top_applied(blocks)->0 by {
            if i < front.len() {
                assert(front[i].change is Applied);
            }
        }
    }
}

/// The constitution reads the same from the founding block and from its
/// summary; only the attestations went with the block.
pub proof fn a_summary_keeps_the_constitution(block: BlockV)
    requires
        block.change is Genesis,
    ensures
        ({
            let summary = fold::summary_of(seq![block], 0);
            &&& summary is Ok
            &&& walk::sealed_by(block) == Some(
                SealedV { attestations: block.sigs, ..walk::sealed_in(summary->Ok_0) },
            )
            &&& walk::sealed_in(summary->Ok_0).attestations.len() == 0
        }),
{
    summary_laws::a_founding_is_summarised_as_it_was_sealed(block);
}

/// One open patch retired.
proof fn lemma_retired(s: StateV, top: u64, id: u64)
    ensures
        ({
            let w = s.retiring(top);
            let before = table::get(s.proposals, id);
            let now = table::get(w.proposals, id);
            &&& before is None ==> now is None
            &&& before is Some ==> now is Some
            &&& id != top || !patches::waits(before->0) ==> now == before
            &&& id == top && before is Some && patches::waits(before->0) ==> {
                &&& now->0.state == ProposalState::Rejected
                &&& now->0.superseded
                &&& table::get(w.pending_sigs, id) is None
                &&& table::get(w.proposal_changes, id) is None
            }
            &&& id != top ==> {
                &&& table::get(w.pending_sigs, id) == table::get(s.pending_sigs, id)
                &&& table::get(w.proposal_changes, id) == table::get(s.proposal_changes, id)
            }
            &&& id == top ==> {
                &&& table::get(s.pending_sigs, id) is None ==> table::get(w.pending_sigs, id) is None
                &&& table::get(s.proposal_changes, id) is None ==> table::get(
                    w.proposal_changes,
                    id,
                ) is None
            }
            &&& w.wiki_asked == s.wiki_asked
        }),
{
    match table::get(s.proposals, top) {
        Some(card) => {
            let next = RecordV { state: ProposalState::Rejected, superseded: true, ..card };
            table::reading_a_put(s.proposals, top, next, id);
            table::reading_a_put(s.proposals, top, next, top);
            let marked = StateV { proposals: table::put(s.proposals, top, next), ..s };
            let other: u64 = if id != top {
                id
            } else if top == 0 {
                1
            } else {
                0
            };
            vote_laws::a_forgotten_vote_leaves_its_voters(marked, top, other);
        },
        None => {},
    }
}

/// Every open patch that the host names is retired: rejected as overtaken,
/// with nothing collected for it any more. Any other card stays.
pub proof fn every_overtaken_patch_is_retired(s: StateV, ids: Seq<u64>, id: u64)
    requires
        table::get(s.proposals, id) is Some,
    ensures
        ({
            let w = s.retiring_each(ids);
            let card = table::get(s.proposals, id)->0;
            let now = table::get(w.proposals, id);
            &&& now is Some
            &&& ids.contains(id) && patches::waits(card) ==> {
                &&& now->0.state == ProposalState::Rejected
                &&& now->0.superseded
                &&& table::get(w.pending_sigs, id) is None
                &&& table::get(w.proposal_changes, id) is None
            }
            &&& !ids.contains(id) || !patches::waits(card) ==> now->0 == card
            &&& w.wiki_asked == s.wiki_asked
        }),
    decreases ids.len(),
{
    if ids.len() > 0 {
        let front = ids.drop_last();
        every_overtaken_patch_is_retired(s, front, id);
        lemma_in_front(ids, id);
        lemma_retired(s.retiring_each(front), ids.last(), id);
    }
}

/// While the host still owes another answer, its answer only retires what it
/// names; what waits for the answers goes on with the last of them.
pub proof fn an_answer_retires_what_it_names(s: StateV, ids: Seq<u64>, id: u64)
    requires
        s.wiki_asked > 1,
        table::get(s.proposals, id) is Some,
        patches::waits(table::get(s.proposals, id)->0),
    ensures
        ({
            let w = s.patches_settled(ids);
            let now = table::get(w.proposals, id);
            &&& w.wiki_asked == s.wiki_asked - 1
            &&& now is Some
            &&& ids.contains(id) ==> now->0.state == ProposalState::Rejected && now->0.superseded
            &&& !ids.contains(id) ==> now == table::get(s.proposals, id)
        }),
{
    every_overtaken_patch_is_retired(s, ids, id);
}

} // verus!
