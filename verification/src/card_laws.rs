//! What holds of the cards: every decided proposal has one, and it reads
//! applied.

use crate::governance;
use crate::model::{BlockV, ChangeV, MembershipOp};
use crate::projection;
use crate::projection::{CardRefV, DecisionV};
use crate::sealing;
use crate::state::{ProposalState, RecordV, StateV};
use crate::table;
use crate::votes;
use vstd::prelude::*;

verus! {

/// Does the card of that proposal read applied?
pub open spec fn reads_applied(s: StateV, id: u64) -> bool {
    s.card_state(id) == Some(ProposalState::Applied)
}

/// Forgetting a vote keeps every card's state.
proof fn lemma_forgetting_cards(s: StateV, forgot: u64, id: u64)
    ensures
        s.forgetting(forgot).card_state(id) == s.card_state(id),
{
    match (table::get(s.pending_sigs, forgot), table::get(s.proposals, forgot)) {
        (Some(v), Some(p)) => {
            table::reading_a_put(
                s.proposals,
                forgot,
                RecordV { voted: votes::voices_with(p.voted, v.sigs), ..p },
                id,
            );
        },
        _ => {},
    }
}

/// Forgetting votes keeps every card's state.
proof fn lemma_forgetting_each_cards(s: StateV, ids: Seq<u64>, id: u64)
    ensures
        s.forgetting_each(ids).card_state(id) == s.card_state(id),
    decreases ids.len(),
{
    if ids.len() > 0 {
        lemma_forgetting_each_cards(s, ids.drop_last(), id);
        lemma_forgetting_cards(s.forgetting_each(ids.drop_last()), ids.last(), id);
    }
}

/// Applying a card applies that card and no other.
proof fn lemma_card_applied(s: StateV, applied: u64, id: u64)
    ensures
        s.card_applied(applied).card_state(id) == (if id == applied && s.card_state(id) is Some {
            Some(ProposalState::Applied)
        } else {
            s.card_state(id)
        }),
{
    match table::get(s.proposals, applied) {
        Some(p) => {
            table::reading_a_put(
                s.proposals,
                applied,
                RecordV { state: ProposalState::Applied, ..p },
                id,
            );
        },
        None => {},
    }
}

/// Making a card makes it applied, and changes no other.
proof fn lemma_card_made(s: StateV, d: DecisionV, id: u64)
    ensures
        s.card_made(d).card_state(id) == (if id == d.id && s.card_state(id) is None {
            Some(ProposalState::Applied)
        } else {
            s.card_state(id)
        }),
{
    if !table::has(s.proposals, d.id) {
        table::reading_a_put(
            s.proposals,
            d.id,
            RecordV {
                state: ProposalState::Applied,
                ..governance::open_card(d.surface, d.payload, Seq::empty())
            },
            id,
        );
    }
}

/// Cards that are made read applied; a card that was there keeps its state.
proof fn lemma_cards_made(s: StateV, missing: Seq<DecisionV>, id: u64)
    ensures
        s.card_state(id) is Some ==> s.cards_made(missing).card_state(id) == s.card_state(id),
        s.card_state(id) is None && s.cards_made(missing).card_state(id) is Some ==> reads_applied(
            s.cards_made(missing),
            id,
        ),
        s.card_state(id) is None && (exists|i: int|
            0 <= i < missing.len() && (#[trigger] missing[i]).id == id) ==> reads_applied(
            s.cards_made(missing),
            id,
        ),
    decreases missing.len(),
{
    if missing.len() > 0 {
        let front = missing.drop_last();
        let d = missing.last();
        lemma_cards_made(s, front, id);
        let rest = s.cards_made(front);
        lemma_card_made(rest, d, id);
        lemma_forgetting_cards(rest.card_made(d), d.id, id);
        if exists|i: int| 0 <= i < missing.len() && (#[trigger] missing[i]).id == id {
            let i = choose|i: int| 0 <= i < missing.len() && (#[trigger] missing[i]).id == id;
            if i < front.len() {
                assert(front[i].id == id);
            }
        }
    }
}

/// Cards that are settled read applied; a card that reads applied stays so,
/// and no card goes.
proof fn lemma_cards_settled(s: StateV, open: Seq<CardRefV>, id: u64)
    ensures
        s.card_state(id) is Some ==> s.cards_settled(open).card_state(id) is Some,
        reads_applied(s, id) ==> reads_applied(s.cards_settled(open), id),
        s.card_state(id) is Some && (exists|i: int|
            0 <= i < open.len() && (#[trigger] open[i]).id == id) ==> reads_applied(
            s.cards_settled(open),
            id,
        ),
    decreases open.len(),
{
    if open.len() > 0 {
        let front = open.drop_last();
        let c = open.last();
        lemma_cards_settled(s, front, id);
        let rest = s.cards_settled(front);
        lemma_card_applied(rest, c.id, id);
        lemma_forgetting_cards(rest.card_applied(c.id), c.id, id);
        if exists|i: int| 0 <= i < open.len() && (#[trigger] open[i]).id == id {
            let i = choose|i: int| 0 <= i < open.len() && (#[trigger] open[i]).id == id;
            if i < front.len() {
                assert(front[i].id == id);
            }
        }
    }
}

/// Applying cards keeps a card that reads applied.
proof fn lemma_cards_applied(s: StateV, ids: Seq<u64>, id: u64)
    requires
        reads_applied(s, id),
    ensures
        reads_applied(s.cards_applied(ids), id),
    decreases ids.len(),
{
    if ids.len() > 0 {
        lemma_cards_applied(s, ids.drop_last(), id);
        lemma_card_applied(s.cards_applied(ids.drop_last()), ids.last(), id);
    }
}

/// Settling membership changes keeps a card that reads applied.
proof fn lemma_memberships(s: StateV, blocks: Seq<BlockV>, id: u64)
    requires
        reads_applied(s, id),
    ensures
        reads_applied(s.memberships_settled(blocks), id),
    decreases blocks.len(),
{
    if blocks.len() > 0 {
        lemma_memberships(s, blocks.drop_last(), id);
        let rest = s.memberships_settled(blocks.drop_last());
        let sealed = blocks.last().change;
        match sealed {
            ChangeV::Membership { op, member, .. } => {
                let ids = governance::open_cards_of(rest.proposals, op, member);
                lemma_cards_applied(rest, ids, id);
                let applied = rest.cards_applied(ids);
                lemma_forgetting_each_cards(
                    applied,
                    governance::ids_naming(applied.proposal_changes, sealed),
                    id,
                );
            },
            _ => {},
        }
    }
}

/// A decision without a card is among the cardless ones.
proof fn lemma_cardless(cards: Seq<(u64, RecordV)>, decisions: Seq<DecisionV>, i: int)
    requires
        0 <= i < decisions.len(),
        !table::has(cards, decisions[i].id),
    ensures
        exists|k: int|
            0 <= k < projection::cardless(cards, decisions).len() && (
            #[trigger] projection::cardless(cards, decisions)[k]).id == decisions[i].id,
    decreases decisions.len(),
{
    let out = projection::cardless(cards, decisions);
    let front = decisions.drop_last();
    if i < front.len() {
        lemma_cardless(cards, front, i);
        assert(front[i] == decisions[i]);
        let rest = projection::cardless(cards, front);
        let k = choose|k: int| 0 <= k < rest.len() && (#[trigger] rest[k]).id == front[i].id;
        assert(out[k] == rest[k]);
    } else {
        assert(out.last() == decisions.last());
        assert(out[out.len() - 1].id == decisions[i].id);
    }
}

/// A decision whose card does not read applied is among the ones behind.
proof fn lemma_behind(cards: Seq<(u64, RecordV)>, decisions: Seq<DecisionV>, i: int)
    requires
        0 <= i < decisions.len(),
        projection::undecided(cards, decisions[i].id),
    ensures
        exists|k: int|
            0 <= k < projection::behind(cards, decisions).len() && (#[trigger] projection::behind(
                cards,
                decisions,
            )[k]).id == decisions[i].id,
    decreases decisions.len(),
{
    let out = projection::behind(cards, decisions);
    let front = decisions.drop_last();
    if i < front.len() {
        lemma_behind(cards, front, i);
        assert(front[i] == decisions[i]);
        let rest = projection::behind(cards, front);
        let k = choose|k: int| 0 <= k < rest.len() && (#[trigger] rest[k]).id == front[i].id;
        assert(out[k] == rest[k]);
    } else {
        assert(out.last().id == decisions.last().id);
        assert(out[out.len() - 1].id == decisions[i].id);
    }
}

/// A consumed id whose card does not read applied is among the ones behind.
proof fn lemma_behind_ids(cards: Seq<(u64, RecordV)>, ids: Seq<u64>, i: int)
    requires
        0 <= i < ids.len(),
        projection::undecided(cards, ids[i]),
    ensures
        exists|k: int|
            0 <= k < projection::behind_ids(cards, ids).len() && (#[trigger] projection::behind_ids(
                cards,
                ids,
            )[k]).id == ids[i],
    decreases ids.len(),
{
    let out = projection::behind_ids(cards, ids);
    let front = ids.drop_last();
    if i < front.len() {
        lemma_behind_ids(cards, front, i);
        assert(front[i] == ids[i]);
        let rest = projection::behind_ids(cards, front);
        let k = choose|k: int| 0 <= k < rest.len() && (#[trigger] rest[k]).id == front[i];
        assert(out[k] == rest[k]);
    } else {
        assert(out.last().id == ids.last());
        assert(out[out.len() - 1].id == ids[i]);
    }
}

/// Was that proposal decided, by a block or by an entry of the summary?
pub open spec fn decided(s: StateV, id: u64) -> bool {
    ||| exists|i: int|
        0 <= i < projection::decisions_sealed(s.blocks).len() && (
        #[trigger] projection::decisions_sealed(s.blocks)[i]).id == id
    ||| exists|i: int| 0 <= i < s.summarized().len() && (#[trigger] s.summarized()[i]).id == id
}

/// After the cards were settled against the chain, every proposal that the
/// chain decided has a card, and it reads applied. A holder that missed the
/// whole deliberation shows the same decisions as one that took part.
pub proof fn every_decided_card_reads_applied(s: StateV, id: u64)
    requires
        decided(s, id),
    ensures
        reads_applied(s.settled_against_chain(), id),
{
    let sealed = projection::decisions_sealed(s.blocks);
    let m1 = projection::cardless(s.proposals, s.summarized());
    let m2 = projection::cardless(s.proposals, sealed);
    let missing = m1 + m2;
    let o1 = projection::behind(s.proposals, s.summarized());
    let o2 = projection::behind_ids(s.proposals, s.summarized_ids());
    let o3 = projection::behind(s.proposals, sealed);
    let open = o1 + o2 + o3;
    let made = s.cards_made(missing);
    let settled = made.cards_settled(open);
    lemma_cards_made(s, missing, id);
    lemma_cards_settled(made, open, id);
    if s.card_state(id) is None {
        if exists|i: int| 0 <= i < sealed.len() && (#[trigger] sealed[i]).id == id {
            let i = choose|i: int| 0 <= i < sealed.len() && (#[trigger] sealed[i]).id == id;
            lemma_cardless(s.proposals, sealed, i);
            let k = choose|k: int| 0 <= k < m2.len() && (#[trigger] m2[k]).id == id;
            assert(missing[m1.len() + k].id == id);
        } else {
            let i = choose|i: int|
                0 <= i < s.summarized().len() && (#[trigger] s.summarized()[i]).id == id;
            lemma_cardless(s.proposals, s.summarized(), i);
            let k = choose|k: int| 0 <= k < m1.len() && (#[trigger] m1[k]).id == id;
            assert(missing[k].id == id);
        }
    } else if !reads_applied(s, id) {
        if exists|i: int| 0 <= i < sealed.len() && (#[trigger] sealed[i]).id == id {
            let i = choose|i: int| 0 <= i < sealed.len() && (#[trigger] sealed[i]).id == id;
            lemma_behind(s.proposals, sealed, i);
            let k = choose|k: int| 0 <= k < o3.len() && (#[trigger] o3[k]).id == id;
            assert(open[o1.len() + o2.len() + k].id == id);
        } else {
            let i = choose|i: int|
                0 <= i < s.summarized().len() && (#[trigger] s.summarized()[i]).id == id;
            lemma_behind(s.proposals, s.summarized(), i);
            let k = choose|k: int| 0 <= k < o1.len() && (#[trigger] o1[k]).id == id;
            assert(open[k].id == id);
        }
    }
    lemma_memberships(settled, s.blocks, id);
}

/// After the cards were settled against the chain, no open card is left of a
/// proposal that the summary consumed, though its content is in no entry of
/// the summary any more.
pub proof fn no_consumed_card_stays_open(s: StateV, i: int)
    requires
        0 <= i < s.summarized_ids().len(),
        s.card_state(s.summarized_ids()[i]) is Some,
    ensures
        reads_applied(s.settled_against_chain(), s.summarized_ids()[i]),
{
    let id = s.summarized_ids()[i];
    let sealed = projection::decisions_sealed(s.blocks);
    let missing = projection::cardless(s.proposals, s.summarized()) + projection::cardless(
        s.proposals,
        sealed,
    );
    let o1 = projection::behind(s.proposals, s.summarized());
    let o2 = projection::behind_ids(s.proposals, s.summarized_ids());
    let o3 = projection::behind(s.proposals, sealed);
    let open = o1 + o2 + o3;
    let made = s.cards_made(missing);
    let settled = made.cards_settled(open);
    lemma_cards_made(s, missing, id);
    lemma_cards_settled(made, open, id);
    if !reads_applied(s, id) {
        lemma_behind_ids(s.proposals, s.summarized_ids(), i);
        let k = choose|k: int| 0 <= k < o2.len() && (#[trigger] o2[k]).id == id;
        assert(open[o1.len() + k].id == id);
    }
    lemma_memberships(settled, s.blocks, id);
}

/// Is each id named once among the cards and the registered changes?
pub open spec fn tables_ascend(s: StateV) -> bool {
    table::keys_ascend(s.proposals) && table::keys_ascend(s.proposal_changes)
}

/// On the way from `a` to `b`, were cards only ever applied, and registered
/// changes only ever dropped?
pub open spec fn only_settles(a: StateV, b: StateV) -> bool {
    &&& tables_ascend(a) ==> tables_ascend(b)
    &&& forall|id: u64|
        match (table::get(a.proposals, id), #[trigger] table::get(b.proposals, id)) {
            (None, None) => true,
            (Some(p), Some(q)) => p.surface == q.surface && p.payload == q.payload && (q.state
                == p.state || q.state == ProposalState::Applied),
            _ => false,
        }
    &&& forall|id: u64|
        (#[trigger] table::get(b.proposal_changes, id)) is None || table::get(
            b.proposal_changes,
            id,
        ) == table::get(a.proposal_changes, id)
}

proof fn lemma_settles_way(a: StateV, b: StateV, c: StateV)
    requires
        only_settles(a, b),
        only_settles(b, c),
    ensures
        only_settles(a, c),
{
    assert forall|id: u64|
        match (table::get(a.proposals, id), #[trigger] table::get(c.proposals, id)) {
            (None, None) => true,
            (Some(p), Some(q)) => p.surface == q.surface && p.payload == q.payload && (q.state
                == p.state || q.state == ProposalState::Applied),
            _ => false,
        } by {
        let q = table::get(b.proposals, id);
    }
    assert forall|id: u64|
        (#[trigger] table::get(c.proposal_changes, id)) is None || table::get(
            c.proposal_changes,
            id,
        ) == table::get(a.proposal_changes, id) by {
        let q = table::get(b.proposal_changes, id);
    }
}

/// Applying a card only settles.
pub proof fn lemma_card_applied_settles(s: StateV, applied: u64)
    ensures
        only_settles(s, s.card_applied(applied)),
{
    match table::get(s.proposals, applied) {
        Some(p) => {
            let q = RecordV { state: ProposalState::Applied, ..p };
            assert forall|id: u64| #[trigger]
                table::get(table::put(s.proposals, applied, q), id) == (if id == applied {
                    Some(q)
                } else {
                    table::get(s.proposals, id)
                }) by {
                table::reading_a_put(s.proposals, applied, q, id);
            }
            if table::keys_ascend(s.proposals) {
                table::putting_keeps_the_order(s.proposals, applied, q);
            }
        },
        None => {},
    }
}

/// Applying cards only settles, and applies each of them.
pub proof fn lemma_cards_applied_settle(s: StateV, ids: Seq<u64>)
    ensures
        only_settles(s, s.cards_applied(ids)),
        s.cards_applied(ids).proposal_changes == s.proposal_changes,
        forall|i: int|
            0 <= i < ids.len() && s.card_state(#[trigger] ids[i]) is Some ==> reads_applied(
                s.cards_applied(ids),
                ids[i],
            ),
        forall|id: u64|
            !ids.contains(id) ==> #[trigger] table::get(s.cards_applied(ids).proposals, id)
                == table::get(s.proposals, id),
    decreases ids.len(),
{
    if ids.len() > 0 {
        let front = ids.drop_last();
        let rest = s.cards_applied(front);
        lemma_cards_applied_settle(s, front);
        lemma_card_applied_settles(rest, ids.last());
        let done = rest.card_applied(ids.last());
        assert(only_settles(done, s.cards_applied(ids)));
        lemma_settles_way(s, rest, done);
        lemma_settles_way(s, done, s.cards_applied(ids));
        assert forall|i: int|
            0 <= i < ids.len() && s.card_state(#[trigger] ids[i]) is Some implies reads_applied(
            s.cards_applied(ids),
            ids[i],
        ) by {
            let q = table::get(rest.proposals, ids[i]);
            if i < front.len() {
                assert(front[i] == ids[i]);
            }
            lemma_card_applied(rest, ids.last(), ids[i]);
        }
        assert forall|id: u64| !ids.contains(id) implies #[trigger] table::get(
            s.cards_applied(ids).proposals,
            id,
        ) == table::get(s.proposals, id) by {
            assert(ids[ids.len() - 1] != id);
            if front.contains(id) {
                let k = choose|k: int| 0 <= k < front.len() && front[k] == id;
                assert(ids[k] == id);
            }
            match table::get(rest.proposals, ids.last()) {
                Some(p) => {
                    table::reading_a_put(
                        rest.proposals,
                        ids.last(),
                        RecordV { state: ProposalState::Applied, ..p },
                        id,
                    );
                },
                None => {},
            }
        }
    }
}

/// Forgetting a vote only settles, and drops what was registered under it.
pub proof fn lemma_forgetting_settles(s: StateV, forgot: u64)
    ensures
        only_settles(s, s.forgetting(forgot)),
        table::get(s.forgetting(forgot).proposal_changes, forgot) is None,
{
    let t = s.forgetting(forgot);
    assert forall|id: u64| #[trigger]
        table::get(t.proposal_changes, id) == (if id == forgot {
            None
        } else {
            table::get(s.proposal_changes, id)
        }) by {
        table::reading_a_removal(s.proposal_changes, forgot, id);
    }
    if table::keys_ascend(s.proposal_changes) {
        table::removing_keeps_the_order(s.proposal_changes, forgot);
    }
    match (table::get(s.pending_sigs, forgot), table::get(s.proposals, forgot)) {
        (Some(v), Some(p)) => {
            let q = RecordV { voted: votes::voices_with(p.voted, v.sigs), ..p };
            assert forall|id: u64| #[trigger]
                table::get(table::put(s.proposals, forgot, q), id) == (if id == forgot {
                    Some(q)
                } else {
                    table::get(s.proposals, id)
                }) by {
                table::reading_a_put(s.proposals, forgot, q, id);
            }
            if table::keys_ascend(s.proposals) {
                table::putting_keeps_the_order(s.proposals, forgot, q);
            }
        },
        _ => {},
    }
}

/// Forgetting votes only settles, and drops what was registered under them.
pub proof fn lemma_forgetting_each_settles(s: StateV, ids: Seq<u64>)
    ensures
        only_settles(s, s.forgetting_each(ids)),
        forall|i: int|
            0 <= i < ids.len() ==> table::get(
                s.forgetting_each(ids).proposal_changes,
                #[trigger] ids[i],
            ) is None,
    decreases ids.len(),
{
    if ids.len() > 0 {
        let front = ids.drop_last();
        let rest = s.forgetting_each(front);
        lemma_forgetting_each_settles(s, front);
        lemma_forgetting_settles(rest, ids.last());
        lemma_settles_way(s, rest, s.forgetting_each(ids));
        assert forall|i: int| 0 <= i < ids.len() implies table::get(
            s.forgetting_each(ids).proposal_changes,
            #[trigger] ids[i],
        ) is None by {
            if i < front.len() {
                assert(front[i] == ids[i]);
            }
        }
    }
}

/// The open cards of a membership change are those that read so.
proof fn lemma_open_cards_of(
    cards: Seq<(u64, RecordV)>,
    op: MembershipOp,
    member: Seq<char>,
    id: u64,
)
    requires
        table::keys_ascend(cards),
    ensures
        governance::open_cards_of(cards, op, member).contains(id) <==> (match table::get(
            cards,
            id,
        ) {
            Some(p) => p.state == ProposalState::Proposed && votes::wears(p, op, member),
            None => false,
        }),
    decreases cards.len(),
{
    let out = governance::open_cards_of(cards, op, member);
    if cards.len() > 0 {
        let front = cards.drop_last();
        let last = cards.last();
        assert forall|a: int, b: int| 0 <= a < b < front.len() implies (#[trigger] front[a]).0 < (
        #[trigger] front[b]).0 by {
            assert(cards[a].0 < cards[b].0);
        }
        lemma_open_cards_of(front, op, member, id);
        let inner = governance::open_cards_of(front, op, member);
        if id == last.0 {
            if table::has(front, id) {
                let k = table::what_is_read_is_a_row(front, id);
                assert(cards[k].0 < cards[cards.len() - 1].0);
            }
            if out.len() > inner.len() {
                assert(out[out.len() - 1] == id);
            }
        } else {
            if inner.contains(id) {
                let k = choose|k: int| 0 <= k < inner.len() && inner[k] == id;
                assert(out[k] == id);
            }
            if out.contains(id) {
                let k = choose|k: int| 0 <= k < out.len() && out[k] == id;
                assert(inner[k] == id);
            }
        }
    }
}

/// The ids of a registered change are those under which it is registered.
proof fn lemma_ids_naming(changes: Seq<(u64, ChangeV)>, sealed: ChangeV, id: u64)
    requires
        table::keys_ascend(changes),
    ensures
        governance::ids_naming(changes, sealed).contains(id) <==> table::get(changes, id) == Some(
            sealed,
        ),
    decreases changes.len(),
{
    let out = governance::ids_naming(changes, sealed);
    if changes.len() > 0 {
        let front = changes.drop_last();
        let last = changes.last();
        assert forall|a: int, b: int| 0 <= a < b < front.len() implies (#[trigger] front[a]).0 < (
        #[trigger] front[b]).0 by {
            assert(changes[a].0 < changes[b].0);
        }
        lemma_ids_naming(front, sealed, id);
        let inner = governance::ids_naming(front, sealed);
        if id == last.0 {
            if table::has(front, id) {
                let k = table::what_is_read_is_a_row(front, id);
                assert(changes[k].0 < changes[changes.len() - 1].0);
            }
            if out.len() > inner.len() {
                assert(out[out.len() - 1] == id);
            }
        } else {
            if inner.contains(id) {
                let k = choose|k: int| 0 <= k < inner.len() && inner[k] == id;
                assert(out[k] == id);
            }
            if out.contains(id) {
                let k = choose|k: int| 0 <= k < out.len() && out[k] == id;
                assert(inner[k] == id);
            }
        }
    }
}

/// Is a membership change settled: no open card of it, and it is registered
/// nowhere?
pub open spec fn done_with(s: StateV, change: ChangeV) -> bool {
    match change {
        ChangeV::Membership { op, member, .. } => {
            &&& forall|id: u64|
                match #[trigger] table::get(s.proposals, id) {
                    Some(p) => !(p.state == ProposalState::Proposed && votes::wears(
                        p,
                        op,
                        member,
                    )),
                    None => true,
                }
            &&& forall|id: u64| #[trigger] table::get(s.proposal_changes, id) != Some(change)
        },
        _ => true,
    }
}

/// What was settled stays so.
proof fn lemma_done_stays(a: StateV, b: StateV, change: ChangeV)
    requires
        only_settles(a, b),
        done_with(a, change),
    ensures
        done_with(b, change),
{
    match change {
        ChangeV::Membership { op, member, .. } => {
            assert forall|id: u64|
                match #[trigger] table::get(b.proposals, id) {
                    Some(p) => !(p.state == ProposalState::Proposed && votes::wears(
                        p,
                        op,
                        member,
                    )),
                    None => true,
                } by {
                let p = table::get(a.proposals, id);
            }
            assert forall|id: u64| #[trigger] table::get(b.proposal_changes, id) != Some(
                change,
            ) by {
                let c = table::get(a.proposal_changes, id);
            }
        },
        _ => {},
    }
}

/// Settling a membership change settles it.
proof fn lemma_membership_done(s: StateV, change: ChangeV)
    requires
        tables_ascend(s),
    ensures
        only_settles(s, s.membership_settled(change)),
        done_with(s.membership_settled(change), change),
{
    match change {
        ChangeV::Membership { op, member, .. } => {
            let ids = governance::open_cards_of(s.proposals, op, member);
            lemma_cards_applied_settle(s, ids);
            let applied = s.cards_applied(ids);
            let named = governance::ids_naming(applied.proposal_changes, change);
            lemma_forgetting_each_settles(applied, named);
            let t = applied.forgetting_each(named);
            lemma_settles_way(s, applied, t);
            assert forall|id: u64|
                match #[trigger] table::get(t.proposals, id) {
                    Some(p) => !(p.state == ProposalState::Proposed && votes::wears(
                        p,
                        op,
                        member,
                    )),
                    None => true,
                } by {
                let p = table::get(applied.proposals, id);
                lemma_open_cards_of(s.proposals, op, member, id);
                if ids.contains(id) {
                    let k = choose|k: int| 0 <= k < ids.len() && ids[k] == id;
                    assert(s.card_state(ids[k]) is Some);
                    assert(reads_applied(applied, ids[k]));
                }
            }
            assert forall|id: u64| #[trigger] table::get(t.proposal_changes, id) != Some(
                change,
            ) by {
                lemma_ids_naming(applied.proposal_changes, change, id);
                if named.contains(id) {
                    let k = choose|k: int| 0 <= k < named.len() && named[k] == id;
                    assert(table::get(t.proposal_changes, named[k]) is None);
                }
            }
        },
        _ => {
            assert(only_settles(s, s));
        },
    }
}

/// Settling the membership changes of the blocks settles each of them.
proof fn lemma_memberships_done(s: StateV, blocks: Seq<BlockV>)
    requires
        tables_ascend(s),
    ensures
        only_settles(s, s.memberships_settled(blocks)),
        forall|j: int|
            0 <= j < blocks.len() ==> done_with(
                s.memberships_settled(blocks),
                (#[trigger] blocks[j]).change,
            ),
    decreases blocks.len(),
{
    if blocks.len() > 0 {
        let front = blocks.drop_last();
        let rest = s.memberships_settled(front);
        let all = s.memberships_settled(blocks);
        lemma_memberships_done(s, front);
        lemma_membership_done(rest, blocks.last().change);
        lemma_settles_way(s, rest, all);
        assert forall|j: int| 0 <= j < blocks.len() implies done_with(
            all,
            (#[trigger] blocks[j]).change,
        ) by {
            if j < front.len() {
                assert(front[j] == blocks[j]);
                lemma_done_stays(rest, all, blocks[j].change);
            }
        }
    } else {
        assert(only_settles(s, s));
    }
}

/// A membership change that is settled already changes nothing.
proof fn lemma_done_again(s: StateV, change: ChangeV)
    requires
        tables_ascend(s),
        done_with(s, change),
    ensures
        s.membership_settled(change) == s,
{
    match change {
        ChangeV::Membership { op, member, .. } => {
            let ids = governance::open_cards_of(s.proposals, op, member);
            if ids.len() > 0 {
                lemma_open_cards_of(s.proposals, op, member, ids[0]);
            }
            let named = governance::ids_naming(s.proposal_changes, change);
            if named.len() > 0 {
                lemma_ids_naming(s.proposal_changes, change, named[0]);
            }
            assert(ids =~= Seq::empty());
            assert(named =~= Seq::empty());
        },
        _ => {},
    }
}

/// Nor do several.
proof fn lemma_memberships_again(s: StateV, blocks: Seq<BlockV>)
    requires
        tables_ascend(s),
        forall|j: int| 0 <= j < blocks.len() ==> done_with(s, (#[trigger] blocks[j]).change),
    ensures
        s.memberships_settled(blocks) == s,
    decreases blocks.len(),
{
    if blocks.len() > 0 {
        let front = blocks.drop_last();
        assert forall|j: int| 0 <= j < front.len() implies done_with(
            s,
            (#[trigger] front[j]).change,
        ) by {
            assert(front[j] == blocks[j]);
        }
        lemma_memberships_again(s, front);
        assert(blocks[blocks.len() - 1] == blocks.last());
        lemma_done_again(s, blocks.last().change);
    }
}

/// Making cards keeps the tables in order.
proof fn lemma_cards_made_ascend(s: StateV, missing: Seq<DecisionV>)
    requires
        tables_ascend(s),
    ensures
        tables_ascend(s.cards_made(missing)),
    decreases missing.len(),
{
    if missing.len() > 0 {
        let rest = s.cards_made(missing.drop_last());
        let d = missing.last();
        lemma_cards_made_ascend(s, missing.drop_last());
        if !table::has(rest.proposals, d.id) {
            table::putting_keeps_the_order(
                rest.proposals,
                d.id,
                RecordV {
                    state: ProposalState::Applied,
                    ..governance::open_card(d.surface, d.payload, Seq::empty())
                },
            );
        }
        lemma_forgetting_settles(rest.card_made(d), d.id);
    }
}

/// Settling cards only settles.
pub proof fn lemma_cards_settled_settle(s: StateV, open: Seq<CardRefV>)
    ensures
        only_settles(s, s.cards_settled(open)),
    decreases open.len(),
{
    if open.len() > 0 {
        let rest = s.cards_settled(open.drop_last());
        let c = open.last();
        lemma_cards_settled_settle(s, open.drop_last());
        lemma_card_applied_settles(rest, c.id);
        lemma_settles_way(s, rest, rest.card_applied(c.id));
        let forgot = rest.card_applied(c.id).forgetting(c.id);
        lemma_forgetting_settles(rest.card_applied(c.id), c.id);
        lemma_settles_way(s, rest.card_applied(c.id), forgot);
        assert(only_settles(forgot, s.cards_settled(open)));
        lemma_settles_way(s, forgot, s.cards_settled(open));
    } else {
        assert(only_settles(s, s));
    }
}

/// Where every decision has a card, none is missing.
proof fn lemma_none_cardless(cards: Seq<(u64, RecordV)>, decisions: Seq<DecisionV>)
    requires
        forall|i: int|
            0 <= i < decisions.len() ==> table::has(cards, (#[trigger] decisions[i]).id),
    ensures
        projection::cardless(cards, decisions) == Seq::<DecisionV>::empty(),
    decreases decisions.len(),
{
    if decisions.len() > 0 {
        let front = decisions.drop_last();
        assert forall|i: int| 0 <= i < front.len() implies table::has(
            cards,
            (#[trigger] front[i]).id,
        ) by {
            assert(front[i] == decisions[i]);
        }
        lemma_none_cardless(cards, front);
        assert(table::has(cards, decisions[decisions.len() - 1].id));
    }
}

/// Where no decision's card is undecided, none is behind.
proof fn lemma_none_behind(cards: Seq<(u64, RecordV)>, decisions: Seq<DecisionV>)
    requires
        forall|i: int|
            0 <= i < decisions.len() ==> !projection::undecided(
                cards,
                (#[trigger] decisions[i]).id,
            ),
    ensures
        projection::behind(cards, decisions) == Seq::<CardRefV>::empty(),
    decreases decisions.len(),
{
    if decisions.len() > 0 {
        let front = decisions.drop_last();
        assert forall|i: int| 0 <= i < front.len() implies !projection::undecided(
            cards,
            (#[trigger] front[i]).id,
        ) by {
            assert(front[i] == decisions[i]);
        }
        lemma_none_behind(cards, front);
        assert(!projection::undecided(cards, decisions[decisions.len() - 1].id));
    }
}

/// Where no consumed id's card is undecided, none is behind.
proof fn lemma_no_id_behind(cards: Seq<(u64, RecordV)>, ids: Seq<u64>)
    requires
        forall|i: int| 0 <= i < ids.len() ==> !projection::undecided(cards, #[trigger] ids[i]),
    ensures
        projection::behind_ids(cards, ids) == Seq::<CardRefV>::empty(),
    decreases ids.len(),
{
    if ids.len() > 0 {
        let front = ids.drop_last();
        assert forall|i: int| 0 <= i < front.len() implies !projection::undecided(
            cards,
            #[trigger] front[i],
        ) by {
            assert(front[i] == ids[i]);
        }
        lemma_no_id_behind(cards, front);
        assert(!projection::undecided(cards, ids[ids.len() - 1]));
    }
}

/// Settling the cards against the chain a second time changes nothing at all.
pub proof fn settling_the_cards_again_changes_nothing(s: StateV)
    requires
        tables_ascend(s),
    ensures
        s.settled_against_chain().settled_against_chain() == s.settled_against_chain(),
{
    let sealed = projection::decisions_sealed(s.blocks);
    let missing = projection::cardless(s.proposals, s.summarized()) + projection::cardless(
        s.proposals,
        sealed,
    );
    let open = projection::behind(s.proposals, s.summarized()) + projection::behind_ids(
        s.proposals,
        s.summarized_ids(),
    ) + projection::behind(s.proposals, sealed);
    let made = s.cards_made(missing);
    let settled = made.cards_settled(open);
    let t = s.settled_against_chain();
    sealing::lemma_settled_frame(s);
    lemma_cards_made_ascend(s, missing);
    lemma_cards_settled_settle(made, open);
    lemma_memberships_done(settled, s.blocks);
    assert(tables_ascend(t));
    assert forall|i: int| 0 <= i < sealed.len() implies reads_applied(
        t,
        (#[trigger] sealed[i]).id,
    ) by {
        every_decided_card_reads_applied(s, sealed[i].id);
    }
    assert forall|i: int| 0 <= i < s.summarized().len() implies reads_applied(
        t,
        (#[trigger] s.summarized()[i]).id,
    ) by {
        every_decided_card_reads_applied(s, s.summarized()[i].id);
    }
    assert forall|i: int| 0 <= i < s.summarized_ids().len() implies !projection::undecided(
        t.proposals,
        #[trigger] s.summarized_ids()[i],
    ) by {
        let id = s.summarized_ids()[i];
        if s.card_state(id) is Some {
            no_consumed_card_stays_open(s, i);
        } else {
            lemma_cards_made(s, missing, id);
            lemma_settles_way(made, settled, t);
            let p = table::get(t.proposals, id);
        }
    }
    lemma_none_cardless(t.proposals, s.summarized());
    lemma_none_cardless(t.proposals, sealed);
    lemma_none_behind(t.proposals, s.summarized());
    lemma_none_behind(t.proposals, sealed);
    lemma_no_id_behind(t.proposals, s.summarized_ids());
    assert(Seq::<DecisionV>::empty() + Seq::<DecisionV>::empty() =~= Seq::<DecisionV>::empty());
    assert(Seq::<CardRefV>::empty() + Seq::<CardRefV>::empty() + Seq::<CardRefV>::empty()
        =~= Seq::<CardRefV>::empty());
    lemma_memberships_again(t, s.blocks);
}

/// A decision that has no card is one of the decisions.
proof fn lemma_cardless_from(cards: Seq<(u64, RecordV)>, decisions: Seq<DecisionV>, k: int)
    requires
        0 <= k < projection::cardless(cards, decisions).len(),
    ensures
        exists|i: int|
            0 <= i < decisions.len() && #[trigger] decisions[i] == projection::cardless(
                cards,
                decisions,
            )[k],
    decreases decisions.len(),
{
    let front = decisions.drop_last();
    let rest = projection::cardless(cards, front);
    let out = projection::cardless(cards, decisions);
    if k < rest.len() {
        lemma_cardless_from(cards, front, k);
        let i = choose|i: int| 0 <= i < front.len() && #[trigger] front[i] == rest[k];
        assert(decisions[i] == out[k]);
    } else {
        assert(decisions[decisions.len() - 1] == out[k]);
    }
}

/// A decision whose card is behind is one of the decisions.
proof fn lemma_behind_from(cards: Seq<(u64, RecordV)>, decisions: Seq<DecisionV>, k: int)
    requires
        0 <= k < projection::behind(cards, decisions).len(),
    ensures
        exists|i: int|
            0 <= i < decisions.len() && (#[trigger] decisions[i]).id == projection::behind(
                cards,
                decisions,
            )[k].id,
    decreases decisions.len(),
{
    let front = decisions.drop_last();
    let rest = projection::behind(cards, front);
    let out = projection::behind(cards, decisions);
    if k < rest.len() {
        lemma_behind_from(cards, front, k);
        let i = choose|i: int| 0 <= i < front.len() && (#[trigger] front[i]).id == rest[k].id;
        assert(decisions[i].id == out[k].id);
    } else {
        assert(decisions[decisions.len() - 1].id == out[k].id);
    }
}

/// A consumed id whose card is behind is one of the consumed ids.
proof fn lemma_behind_id_from(cards: Seq<(u64, RecordV)>, ids: Seq<u64>, k: int)
    requires
        0 <= k < projection::behind_ids(cards, ids).len(),
    ensures
        ids.contains(projection::behind_ids(cards, ids)[k].id),
    decreases ids.len(),
{
    let front = ids.drop_last();
    let rest = projection::behind_ids(cards, front);
    let out = projection::behind_ids(cards, ids);
    if k < rest.len() {
        lemma_behind_id_from(cards, front, k);
        let i = choose|i: int| 0 <= i < front.len() && front[i] == rest[k].id;
        assert(ids[i] == out[k].id);
    } else {
        assert(ids[ids.len() - 1] == out[k].id);
    }
}

/// Making cards leaves a card of no such decision alone.
proof fn lemma_cards_made_others(s: StateV, missing: Seq<DecisionV>, id: u64)
    requires
        forall|i: int| 0 <= i < missing.len() ==> (#[trigger] missing[i]).id != id,
    ensures
        table::get(s.cards_made(missing).proposals, id) == table::get(s.proposals, id),
    decreases missing.len(),
{
    if missing.len() > 0 {
        let front = missing.drop_last();
        let d = missing.last();
        assert(missing[missing.len() - 1].id != id);
        assert forall|i: int| 0 <= i < front.len() implies (#[trigger] front[i]).id != id by {
            assert(missing[i].id != id);
        }
        lemma_cards_made_others(s, front, id);
        let rest = s.cards_made(front);
        lemma_made_and_forgotten_others(rest, d, id);
    }
}

proof fn lemma_made_and_forgotten_others(s: StateV, d: DecisionV, id: u64)
    requires
        d.id != id,
    ensures
        table::get(s.card_made(d).forgetting(d.id).proposals, id) == table::get(s.proposals, id),
{
    if !table::has(s.proposals, d.id) {
        table::reading_a_put(
            s.proposals,
            d.id,
            RecordV {
                state: ProposalState::Applied,
                ..governance::open_card(d.surface, d.payload, Seq::empty())
            },
            id,
        );
    }
    lemma_forgotten_others(s.card_made(d), d.id, id);
}

proof fn lemma_forgotten_others(s: StateV, forgot: u64, id: u64)
    requires
        forgot != id,
    ensures
        table::get(s.forgetting(forgot).proposals, id) == table::get(s.proposals, id),
{
    match (table::get(s.pending_sigs, forgot), table::get(s.proposals, forgot)) {
        (Some(v), Some(p)) => {
            table::reading_a_put(
                s.proposals,
                forgot,
                RecordV { voted: votes::voices_with(p.voted, v.sigs), ..p },
                id,
            );
        },
        _ => {},
    }
}

/// Settling cards leaves a card that is not among them alone.
proof fn lemma_cards_settled_others(s: StateV, open: Seq<CardRefV>, id: u64)
    requires
        forall|i: int| 0 <= i < open.len() ==> (#[trigger] open[i]).id != id,
    ensures
        table::get(s.cards_settled(open).proposals, id) == table::get(s.proposals, id),
    decreases open.len(),
{
    if open.len() > 0 {
        let front = open.drop_last();
        let c = open.last();
        assert(open[open.len() - 1].id != id);
        assert forall|i: int| 0 <= i < front.len() implies (#[trigger] front[i]).id != id by {
            assert(open[i].id != id);
        }
        lemma_cards_settled_others(s, front, id);
        let rest = s.cards_settled(front);
        match table::get(rest.proposals, c.id) {
            Some(p) => {
                table::reading_a_put(
                    rest.proposals,
                    c.id,
                    RecordV { state: ProposalState::Applied, ..p },
                    id,
                );
            },
            None => {},
        }
        lemma_forgotten_others(rest.card_applied(c.id), c.id, id);
    }
}

/// Is that an open card of a membership change that one of the blocks carries?
pub open spec fn awaits_membership(card: Option<RecordV>, blocks: Seq<BlockV>) -> bool {
    &&& card is Some
    &&& card->0.state == ProposalState::Proposed
    &&& exists|j: int| 0 <= j < blocks.len() && worn_by(card->0, (#[trigger] blocks[j]).change)
}

/// Is that the card of this membership change?
pub open spec fn worn_by(card: RecordV, change: ChangeV) -> bool {
    match change {
        ChangeV::Membership { op, member, .. } => votes::wears(card, op, member),
        _ => false,
    }
}

/// Settling membership changes applies an open card of one of them, and leaves
/// every other card's state.
proof fn lemma_memberships_others(s: StateV, blocks: Seq<BlockV>, id: u64)
    requires
        tables_ascend(s),
    ensures
        s.memberships_settled(blocks).card_state(id) == (if awaits_membership(
            table::get(s.proposals, id),
            blocks,
        ) {
            Some(ProposalState::Applied)
        } else {
            s.card_state(id)
        }),
    decreases blocks.len(),
{
    if blocks.len() > 0 {
        let front = blocks.drop_last();
        let rest = s.memberships_settled(front);
        let all = s.memberships_settled(blocks);
        let card = table::get(s.proposals, id);
        let change = blocks.last().change;
        lemma_memberships_others(s, front, id);
        lemma_memberships_done(s, front);
        lemma_membership_done(rest, change);
        let now = table::get(rest.proposals, id);
        if awaits_membership(card, front) {
            let j = choose|j: int|
                0 <= j < front.len() && worn_by(card->0, (#[trigger] front[j]).change);
            assert(blocks[j] == front[j]);
            assert(awaits_membership(card, blocks));
            let p = table::get(all.proposals, id);
        } else {
            if awaits_membership(card, blocks) {
                let j = choose|j: int|
                    0 <= j < blocks.len() && worn_by(card->0, (#[trigger] blocks[j]).change);
                if j < front.len() {
                    assert(front[j] == blocks[j]);
                }
                assert(worn_by(card->0, change));
            } else if card is Some && card->0.state == ProposalState::Proposed {
                assert(blocks[blocks.len() - 1].change == change);
            }
            match change {
                ChangeV::Membership { op, member, .. } => {
                    let ids = governance::open_cards_of(rest.proposals, op, member);
                    lemma_open_cards_of(rest.proposals, op, member, id);
                    lemma_cards_applied_settle(rest, ids);
                    let applied = rest.cards_applied(ids);
                    lemma_forgetting_each_cards(
                        applied,
                        governance::ids_naming(applied.proposal_changes, change),
                        id,
                    );
                    if ids.contains(id) {
                        let k = choose|k: int| 0 <= k < ids.len() && ids[k] == id;
                        assert(rest.card_state(ids[k]) is Some);
                        assert(reads_applied(applied, ids[k]));
                    } else {
                        let p = table::get(applied.proposals, id);
                    }
                },
                _ => {},
            }
        }
    }
}

/// A card of a proposal that the chain neither decided nor consumed keeps its
/// state, unless it is the open card of a membership change that a block
/// carries: that one reads applied.
pub proof fn a_card_of_no_decision_keeps_its_state(s: StateV, id: u64)
    requires
        tables_ascend(s),
        !decided(s, id),
        !s.summarized_ids().contains(id),
    ensures
        s.settled_against_chain().card_state(id) == (if awaits_membership(
            table::get(s.proposals, id),
            s.blocks,
        ) {
            Some(ProposalState::Applied)
        } else {
            s.card_state(id)
        }),
{
    let sealed = projection::decisions_sealed(s.blocks);
    let m1 = projection::cardless(s.proposals, s.summarized());
    let m2 = projection::cardless(s.proposals, sealed);
    let missing = m1 + m2;
    let o1 = projection::behind(s.proposals, s.summarized());
    let o2 = projection::behind_ids(s.proposals, s.summarized_ids());
    let o3 = projection::behind(s.proposals, sealed);
    let open = o1 + o2 + o3;
    assert forall|k: int| 0 <= k < missing.len() implies (#[trigger] missing[k]).id != id by {
        if k < m1.len() {
            lemma_cardless_from(s.proposals, s.summarized(), k);
        } else {
            lemma_cardless_from(s.proposals, sealed, k - m1.len());
        }
    }
    assert forall|k: int| 0 <= k < open.len() implies (#[trigger] open[k]).id != id by {
        if k < o1.len() {
            lemma_behind_from(s.proposals, s.summarized(), k);
        } else if k < o1.len() + o2.len() {
            lemma_behind_id_from(s.proposals, s.summarized_ids(), k - o1.len());
        } else {
            lemma_behind_from(s.proposals, sealed, k - o1.len() - o2.len());
        }
    }
    let made = s.cards_made(missing);
    let settled = made.cards_settled(open);
    lemma_cards_made_others(s, missing, id);
    lemma_cards_settled_others(made, open, id);
    lemma_cards_made_ascend(s, missing);
    lemma_cards_settled_settle(made, open);
    lemma_memberships_others(settled, s.blocks, id);
}

} // verus!
