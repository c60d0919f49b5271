//! What a member that catches up is told.

use crate::canonical;
use crate::identity;
use crate::model::{AttestationV, BlockV};
use crate::sealing;
use crate::serving;
use crate::serving::DeclineV;
use crate::signers;
use crate::state::{
    EffectV, HeightHashV, ParkedV, PendingV, ProposalState, RecordV, StateV, WireV,
};
use crate::sync;
use crate::table;
use vstd::arithmetic::power2;
use vstd::prelude::*;

verus! {

/// Recording events sends them all, in order, after what was to be done before.
pub proof fn what_is_recorded_is_sent_in_order(s: StateV, bodies: Seq<WireV>)
    ensures
        s.recording_each(bodies).effects == s.effects + bodies.map_values(
            |b: WireV| EffectV::Send { body: b },
        ),
        s.recording_each(bodies) == (StateV {
            effects: s.recording_each(bodies).effects,
            next_seq: s.recording_each(bodies).next_seq,
            ..s
        }),
    decreases bodies.len(),
{
    let f = |b: WireV| EffectV::Send { body: b };
    if bodies.len() == 0 {
        assert(s.effects + bodies.map_values(f) =~= s.effects);
    } else {
        let front = bodies.drop_last();
        what_is_recorded_is_sent_in_order(s, front);
        assert(bodies.map_values(f) =~= front.map_values(f).push(f(bodies.last())));
        assert(s.effects + bodies.map_values(f) =~= (s.effects + front.map_values(f)).push(
            f(bodies.last()),
        ));
    }
}

/// The blocks from a height on are those, in order.
proof fn lemma_blocks_from(blocks: Seq<BlockV>, height: u64)
    ensures
        sealing::blocks_from(blocks, height) == blocks.filter(|b: BlockV| b.height >= height),
    decreases blocks.len(),
{
    reveal(Seq::filter);
    if blocks.len() > 0 {
        lemma_blocks_from(blocks.drop_last(), height);
    }
}

/// A request for the chain is answered with every held block from that height
/// on, in order, and with nothing else; where it reaches below what is held,
/// the summary comes first, if there is one and it fits a frame.
pub proof fn every_block_asked_for_is_served(s: StateV, from: u64, blob_fits: bool)
    ensures
        ({
            let told = s.blocks.filter(|b: BlockV| b.height >= from).map_values(
                |b: BlockV| WireV::Committed { block: b },
            );
            let summed = told.len() > 0 && s.checkpoint_blob is Some && from < s.blocks[0].height
                && blob_fits;
            s.served_from(from, blob_fits) == (if summed {
                seq![WireV::CheckpointServed { blob: s.checkpoint_blob->0 }] + told
            } else {
                told
            })
        }),
{
    lemma_blocks_from(s.blocks, from);
    let told = s.blocks.filter(|b: BlockV| b.height >= from).map_values(
        |b: BlockV| WireV::Committed { block: b },
    );
    assert(s.committed_each(sealing::blocks_from(s.blocks, from)) =~= told);
    assert(Seq::<WireV>::empty() + told =~= told);
}

/// Serving the chain sends what is served, in order, and changes nothing else.
pub proof fn a_served_chain_is_sent(s: StateV, from: u64, blob_fits: bool, i: int)
    requires
        0 <= i < s.blocks.len(),
        s.blocks[i].height >= from,
    ensures
        ({
            let w = s.recording_each(s.served_from(from, blob_fits));
            &&& w.effects.contains(
                EffectV::Send { body: WireV::Committed { block: s.blocks[i] } },
            )
            &&& w.blocks == s.blocks
            &&& w.head == s.head
            &&& w.proposals == s.proposals
        }),
{
    let bodies = s.served_from(from, blob_fits);
    let pass = |b: BlockV| b.height >= from;
    let sent = s.blocks.filter(pass);
    every_block_asked_for_is_served(s, from, blob_fits);
    what_is_recorded_is_sent_in_order(s, bodies);
    assert(pass(s.blocks[i]));
    s.blocks.lemma_filter_contains(pass, i);
    let k = choose|k: int| 0 <= k < sent.len() && sent[k] == s.blocks[i];
    let w = s.recording_each(bodies);
    let body = WireV::Committed { block: s.blocks[i] };
    let off = (bodies.len() - sent.len()) as int;
    assert(bodies[off + k] == body);
    assert(w.effects[s.effects.len() + off + k] == (EffectV::Send { body }));
}

/// The approvals told of a vote are its verified signatures, in order.
proof fn lemma_approvals(id: u64, pending: PendingV, sigs: Seq<AttestationV>)
    ensures
        serving::approvals_told(id, pending, sigs) == sigs.filter(
            |a: AttestationV| pending.verified.contains(a.member),
        ).map_values(
            |a: AttestationV|
                WireV::Approved { id, by: a.member, height: pending.height, sig: a.sig },
        ),
    decreases sigs.len(),
{
    reveal(Seq::filter);
    let pass = |a: AttestationV| pending.verified.contains(a.member);
    let f = |a: AttestationV|
        WireV::Approved { id, by: a.member, height: pending.height, sig: a.sig };
    let told = serving::approvals_told(id, pending, sigs);
    if sigs.len() > 0 {
        let front = sigs.drop_last();
        lemma_approvals(id, pending, front);
    }
    assert(told =~= sigs.filter(pass).map_values(f));
}

/// Is that vote open to everybody: a card that is still proposed, and not the
/// card of a membership change?
pub open spec fn told_openly(s: StateV, id: u64, p: RecordV) -> bool {
    &&& p.state == ProposalState::Proposed
    &&& !(table::get(s.proposal_changes, id) is Some && table::get(s.proposal_changes, id)->0
        is Membership)
}

/// What is told of one card: the proposal, and then who approved it so far.
pub open spec fn told_of(s: StateV, id: u64, p: RecordV) -> Seq<WireV> {
    if told_openly(s, id, p) {
        seq![WireV::Proposed { id, surface: p.surface, payload: p.payload }] + (match table::get(
            s.pending_sigs,
            id,
        ) {
            Some(votes) => votes.sigs.filter(
                |a: AttestationV| votes.verified.contains(a.member),
            ).map_values(
                |a: AttestationV|
                    WireV::Approved { id, by: a.member, height: votes.height, sig: a.sig },
            ),
            None => Seq::empty(),
        })
    } else {
        Seq::empty()
    }
}

/// What is told of the cards is what is told of each, in the order of the ids.
proof fn lemma_cards_told(s: StateV, cards: Seq<(u64, RecordV)>)
    ensures
        cards.len() == 0 ==> s.cards_told(cards) == Seq::<WireV>::empty(),
        cards.len() > 0 ==> s.cards_told(cards) == s.cards_told(cards.drop_last()) + told_of(
            s,
            cards.last().0,
            cards.last().1,
        ),
{
    if cards.len() > 0 {
        let id = cards.last().0;
        let p = cards.last().1;
        let rest = s.cards_told(cards.drop_last());
        match table::get(s.pending_sigs, id) {
            Some(votes) => {
                lemma_approvals(id, votes, votes.sigs);
            },
            None => {},
        }
        assert(s.cards_told(cards) =~= rest + told_of(s, id, p));
    }
}

/// What is told of the first cards is told first, and what is told of a card
/// stands together.
proof fn lemma_card_stands(s: StateV, cards: Seq<(u64, RecordV)>, i: int)
    requires
        0 <= i < cards.len(),
    ensures
        s.cards_told(cards.take(i)).len() + told_of(s, cards[i].0, cards[i].1).len()
            <= s.cards_told(cards).len(),
        forall|k: int|
            0 <= k < s.cards_told(cards.take(i)).len() ==> #[trigger] s.cards_told(cards)[k]
                == s.cards_told(cards.take(i))[k],
        forall|k: int|
            0 <= k < told_of(s, cards[i].0, cards[i].1).len() ==> s.cards_told(
                cards,
            )[s.cards_told(cards.take(i)).len() + k] == #[trigger] told_of(
                s,
                cards[i].0,
                cards[i].1,
            )[k],
    decreases cards.len(),
{
    let front = cards.drop_last();
    lemma_cards_told(s, cards);
    if i == cards.len() - 1 {
        assert(cards.take(i) =~= front);
    } else {
        lemma_card_stands(s, front, i);
        assert(front.take(i) =~= cards.take(i));
        assert(front[i] == cards[i]);
    }
}

/// Whoever catches up is told of every open vote: the proposal as its card has
/// it, and, right behind it, every verified approval with its member, height
/// and signature. What is told of a card with a lower id stands before it.
pub proof fn every_open_vote_is_told(s: StateV, i: int)
    requires
        0 <= i < s.proposals.len(),
        s.proposals[i].1.state == ProposalState::Proposed,
        !(table::get(s.proposal_changes, s.proposals[i].0) matches Some(c) && c is Membership),
    ensures
        ({
            let told = s.open_governance();
            let id = s.proposals[i].0;
            let p = s.proposals[i].1;
            let at = s.cards_told(s.proposals.take(i)).len() as int;
            &&& at < told.len()
            &&& told[at] == (WireV::Proposed { id, surface: p.surface, payload: p.payload })
            &&& table::get(s.pending_sigs, id) matches Some(votes) ==> {
                let kept = votes.sigs.filter(
                    |a: AttestationV| votes.verified.contains(a.member),
                );
                &&& at + kept.len() < told.len()
                &&& forall|k: int|
                    0 <= k < kept.len() ==> told[at + 1 + k] == (WireV::Approved {
                        id,
                        by: (#[trigger] kept[k]).member,
                        height: votes.height,
                        sig: kept[k].sig,
                    })
            }
        }),
{
    let id = s.proposals[i].0;
    let p = s.proposals[i].1;
    lemma_card_stands(s, s.proposals, i);
    let told = s.open_governance();
    let at = s.cards_told(s.proposals.take(i)).len() as int;
    let one = told_of(s, id, p);
    assert(one[0] == (WireV::Proposed { id, surface: p.surface, payload: p.payload }));
    assert(s.cards_told(s.proposals)[at + 0] == one[0]);
    match table::get(s.pending_sigs, id) {
        Some(votes) => {
            let kept = votes.sigs.filter(|a: AttestationV| votes.verified.contains(a.member));
            assert forall|k: int| 0 <= k < kept.len() implies told[at + 1 + k] == (
            WireV::Approved {
                id,
                by: (#[trigger] kept[k]).member,
                height: votes.height,
                sig: kept[k].sig,
            }) by {
                assert(one[k + 1] == (WireV::Approved {
                    id,
                    by: kept[k].member,
                    height: votes.height,
                    sig: kept[k].sig,
                }));
                assert(s.cards_told(s.proposals)[at + (k + 1)] == one[k + 1]);
            }
        },
        None => {},
    }
}

/// No open vote and no verified approval is left out of what is told, wherever
/// it is looked up.
pub proof fn no_open_vote_is_left_out(s: StateV, id: u64)
    requires
        table::get(s.proposals, id) is Some,
        table::get(s.proposals, id)->0.state == ProposalState::Proposed,
        !(table::get(s.proposal_changes, id) matches Some(c) && c is Membership),
    ensures
        s.open_governance().contains(
            WireV::Proposed {
                id,
                surface: table::get(s.proposals, id)->0.surface,
                payload: table::get(s.proposals, id)->0.payload,
            },
        ),
        table::get(s.pending_sigs, id) matches Some(votes) ==> forall|j: int|
            0 <= j < votes.sigs.len() && votes.verified.contains((#[trigger] votes.sigs[j]).member)
                ==> s.open_governance().contains(
                WireV::Approved {
                    id,
                    by: votes.sigs[j].member,
                    height: votes.height,
                    sig: votes.sigs[j].sig,
                },
            ),
{
    let i = lemma_row(s.proposals, id);
    every_open_vote_is_told(s, i);
    let told = s.open_governance();
    let at = s.cards_told(s.proposals.take(i)).len() as int;
    match table::get(s.pending_sigs, id) {
        Some(votes) => {
            let pass = |a: AttestationV| votes.verified.contains(a.member);
            let kept = votes.sigs.filter(pass);
            assert forall|j: int|
                0 <= j < votes.sigs.len() && votes.verified.contains(
                    (#[trigger] votes.sigs[j]).member,
                ) implies told.contains(
                WireV::Approved {
                    id,
                    by: votes.sigs[j].member,
                    height: votes.height,
                    sig: votes.sigs[j].sig,
                },
            ) by {
                assert(pass(votes.sigs[j]));
                votes.sigs.lemma_filter_contains(pass, j);
                let k = choose|k: int| 0 <= k < kept.len() && kept[k] == votes.sigs[j];
                assert(told[at + 1 + k] == (WireV::Approved {
                    id,
                    by: kept[k].member,
                    height: votes.height,
                    sig: kept[k].sig,
                }));
            }
        },
        None => {},
    }
}

/// The row that is read under a key.
pub proof fn lemma_row<V>(rows: Seq<(u64, V)>, key: u64) -> (i: int)
    requires
        table::get(rows, key) is Some,
    ensures
        0 <= i < rows.len(),
        rows[i].0 == key,
        rows[i].1 == table::get(rows, key)->0,
    decreases rows.len(),
{
    if rows.last().0 == key {
        rows.len() - 1
    } else {
        lemma_row(rows.drop_last(), key)
    }
}

/// The withdrawals told are this holder's own that are still shown, in order.
proof fn lemma_withdrawals(s: StateV, cards: Seq<(u64, RecordV)>)
    ensures
        s.withdrawals_told(cards) == cards.filter(
            |r: (u64, RecordV)|
                r.1.withdrawn && r.1.by == s.me() && r.1.declined_at >= s.retention_cutoff,
        ).map_values(|r: (u64, RecordV)| WireV::Withdrawn { id: r.0, by: s.me() }),
    decreases cards.len(),
{
    reveal(Seq::filter);
    let told = s.withdrawals_told(cards);
    if cards.len() > 0 {
        lemma_withdrawals(s, cards.drop_last());
    }
    assert(told =~= cards.filter(
        |r: (u64, RecordV)|
            r.1.withdrawn && r.1.by == s.me() && r.1.declined_at >= s.retention_cutoff,
    ).map_values(|r: (u64, RecordV)| WireV::Withdrawn { id: r.0, by: s.me() }));
}

/// A decline that is put in is there, beside those that were; nothing else is.
proof fn lemma_placed(list: Seq<DeclineV>, d: DeclineV)
    ensures
        forall|x: DeclineV| #[trigger]
            serving::decline_placed(list, d).contains(x) <==> (x == d || list.contains(x)),
    decreases list.len(),
{
    let out = serving::decline_placed(list, d);
    if list.len() == 0 {
        assert(out[0] == d);
    } else {
        let front = list.drop_last();
        assert(list =~= front.push(list.last()));
        lemma_placed(front, d);
        assert forall|x: DeclineV| #[trigger] out.contains(x) <==> (x == d || list.contains(x)) by {
            let inner = serving::decline_placed(front, d);
            if list.last() == d {
                assert(list[list.len() - 1] == d);
            } else if serving::decline_before(d, list.last()) {
                if out.contains(x) {
                    let k = choose|k: int| 0 <= k < out.len() && out[k] == x;
                    if k < inner.len() {
                        assert(inner[k] == x);
                        assert(inner.contains(x));
                        if x != d {
                            let j = choose|j: int| 0 <= j < front.len() && front[j] == x;
                            assert(list[j] == x);
                        }
                    } else {
                        assert(list[list.len() - 1] == x);
                    }
                }
                if x == d || list.contains(x) {
                    if x == list.last() {
                        assert(out[inner.len() as int] == x);
                    } else {
                        if list.contains(x) {
                            let j = choose|j: int| 0 <= j < list.len() && list[j] == x;
                            assert(front[j] == x);
                        }
                        assert(inner.contains(x));
                        let k = choose|k: int| 0 <= k < inner.len() && inner[k] == x;
                        assert(out[k] == x);
                    }
                }
            } else {
                if list.contains(x) {
                    let j = choose|j: int| 0 <= j < list.len() && list[j] == x;
                    assert(out[j] == x);
                }
                assert(out[list.len() as int] == d);
                if out.contains(x) {
                    let k = choose|k: int| 0 <= k < out.len() && out[k] == x;
                    if k < list.len() {
                        assert(list[k] == x);
                    }
                }
            }
        }
    }
}

/// Is this holder's decline of that card still to be told: of an open card, or
/// of a rejected one that is still shown?
pub open spec fn declines_still(s: StateV, id: u64, p: RecordV) -> bool {
    &&& !(table::get(s.proposal_changes, id) is Some && table::get(s.proposal_changes, id)->0
        is Membership)
    &&& p.decliners.contains(s.me())
    &&& (p.state == ProposalState::Proposed || (p.state == ProposalState::Rejected && !(
    p.declined_at != 0 && p.declined_at < s.retention_cutoff)))
}

/// The declines of cards are this holder's, bound to the payloads declined.
proof fn lemma_card_declines(s: StateV, cards: Seq<(u64, RecordV)>)
    ensures
        forall|d: DeclineV| #[trigger]
            s.card_declines(cards).contains(d) <==> exists|i: int|
                0 <= i < cards.len() && declines_still(s, (#[trigger] cards[i]).0, cards[i].1)
                    && d.id == cards[i].0 && d.hash == identity::hash_text(
                    canonical::payload_bytes(cards[i].1.payload),
                ),
    decreases cards.len(),
{
    if cards.len() > 0 {
        let front = cards.drop_last();
        let top = cards.last();
        lemma_card_declines(s, front);
        let rest = s.card_declines(front);
        let new = DeclineV { id: top.0, hash: serving::decline_hash_of(top.1.payload) };
        lemma_placed(rest, new);
        assert forall|d: DeclineV| #[trigger] s.card_declines(cards).contains(d) <==> exists|i: int|
            0 <= i < cards.len() && declines_still(s, (#[trigger] cards[i]).0, cards[i].1) && d.id
                == cards[i].0 && d.hash == identity::hash_text(
                canonical::payload_bytes(cards[i].1.payload),
            ) by {
            if rest.contains(d) {
                let i = choose|i: int|
                    0 <= i < front.len() && declines_still(s, (#[trigger] front[i]).0, front[i].1)
                        && d.id == front[i].0 && d.hash == identity::hash_text(
                        canonical::payload_bytes(front[i].1.payload),
                    );
                assert(cards[i] == front[i]);
            }
            if exists|i: int|
                0 <= i < cards.len() && declines_still(s, (#[trigger] cards[i]).0, cards[i].1)
                    && d.id == cards[i].0 && d.hash == identity::hash_text(
                    canonical::payload_bytes(cards[i].1.payload),
                ) {
                let i = choose|i: int|
                    0 <= i < cards.len() && declines_still(s, (#[trigger] cards[i]).0, cards[i].1)
                        && d.id == cards[i].0 && d.hash == identity::hash_text(
                        canonical::payload_bytes(cards[i].1.payload),
                    );
                if i < front.len() {
                    assert(front[i] == cards[i]);
                }
            }
            if d == new && s.tells_decline(top.0, top.1) {
                assert(cards[cards.len() - 1] == top);
            }
        }
    }
}

/// What was declined stays declined beside what waits for its card.
proof fn lemma_parked(s: StateV, base: Seq<DeclineV>, parked: Seq<(u64, Seq<ParkedV>)>)
    ensures
        forall|d: DeclineV| #[trigger]
            s.parked_declines(base, parked).contains(d) <==> (base.contains(d) || exists|i: int|
                0 <= i < parked.len() && serving::parked_voice(
                    (#[trigger] parked[i]).1,
                    s.me(),
                ) == Some(d.hash) && d.id == parked[i].0),
    decreases parked.len(),
{
    if parked.len() > 0 {
        let front = parked.drop_last();
        let top = parked.last();
        lemma_parked(s, base, front);
        let rest = s.parked_declines(base, front);
        let all = s.parked_declines(base, parked);
        match serving::parked_voice(top.1, s.me()) {
            Some(hash) => {
                lemma_placed(rest, DeclineV { id: top.0, hash });
            },
            None => {},
        }
        assert forall|d: DeclineV| #[trigger] all.contains(d) <==> (base.contains(d) || exists|
            i: int,
        |
            0 <= i < parked.len() && serving::parked_voice((#[trigger] parked[i]).1, s.me())
                == Some(d.hash) && d.id == parked[i].0) by {
            if rest.contains(d) && !base.contains(d) {
                let i = choose|i: int|
                    0 <= i < front.len() && serving::parked_voice(
                        (#[trigger] front[i]).1,
                        s.me(),
                    ) == Some(d.hash) && d.id == front[i].0;
                assert(parked[i] == front[i]);
            }
            if exists|i: int|
                0 <= i < parked.len() && serving::parked_voice((#[trigger] parked[i]).1, s.me())
                    == Some(d.hash) && d.id == parked[i].0 {
                let i = choose|i: int|
                    0 <= i < parked.len() && serving::parked_voice(
                        (#[trigger] parked[i]).1,
                        s.me(),
                    ) == Some(d.hash) && d.id == parked[i].0;
                if i < front.len() {
                    assert(front[i] == parked[i]);
                    assert(rest.contains(d));
                }
            }
            if all.contains(d) && !rest.contains(d) {
                assert(parked[parked.len() - 1] == top);
            }
        }
    }
}

/// A holder tells its own withdrawals and its own declines, and nobody else's:
/// every withdrawal of its own that is still shown, every decline of its own
/// that still matters, bound to the payload it declines, and every voice of
/// its own that waits for its card, with the hash it came with.
pub proof fn a_holder_tells_its_own_voices_only(s: StateV, e: WireV)
    ensures
        e matches WireV::Withdrawn { id, by } ==> (s.open_governance().contains(e) <==> by == s.me()
            && exists|i: int|
            0 <= i < s.proposals.len() && (#[trigger] s.proposals[i]).0 == id
                && s.proposals[i].1.withdrawn && s.proposals[i].1.by == s.me()
                && s.proposals[i].1.declined_at >= s.retention_cutoff),
        e matches WireV::Declined { id, by, hash } ==> (s.open_governance().contains(e) <==> by
            == s.me() && ((exists|i: int|
            0 <= i < s.proposals.len() && (#[trigger] s.proposals[i]).0 == id && declines_still(
                s,
                id,
                s.proposals[i].1,
            ) && hash == identity::hash_text(canonical::payload_bytes(s.proposals[i].1.payload)))
            || exists|i: int|
            0 <= i < s.pending_declines.len() && (#[trigger] s.pending_declines[i]).0 == id
                && serving::parked_voice(s.pending_declines[i].1, s.me()) == Some(hash))),
{
    let cards = s.cards_told(s.proposals);
    let back = s.withdrawals_told(s.proposals);
    let all = s.parked_declines(s.card_declines(s.proposals), s.pending_declines);
    let no = s.declines_told(all);
    let told = s.open_governance();
    lemma_cards_kinds(s, s.proposals);
    lemma_withdrawals(s, s.proposals);
    lemma_card_declines(s, s.proposals);
    lemma_parked(s, s.card_declines(s.proposals), s.pending_declines);
    let shown = |r: (u64, RecordV)|
        r.1.withdrawn && r.1.by == s.me() && r.1.declined_at >= s.retention_cutoff;
    let kept = s.proposals.filter(shown);
    assert(told =~= cards + back + no);
    assert(back.len() == kept.len());
    if e is Withdrawn {
        if told.contains(e) {
            let k = choose|k: int| 0 <= k < told.len() && told[k] == e;
            if k < cards.len() {
                assert(cards[k] == e);
            } else if k < cards.len() + back.len() {
                let j = k - cards.len();
                assert(back[j] == e);
                s.proposals.lemma_filter_pred(shown, j);
                lemma_filter_from(s.proposals, shown, j);
                let i = choose|i: int| 0 <= i < s.proposals.len() && s.proposals[i] == kept[j];
                assert(s.proposals[i] == kept[j]);
            } else {
                assert(no[k - cards.len() - back.len()] == e);
            }
        }
        if e->Withdrawn_by == s.me() && exists|i: int|
            0 <= i < s.proposals.len() && (#[trigger] s.proposals[i]).0 == e->Withdrawn_id
                && s.proposals[i].1.withdrawn && s.proposals[i].1.by == s.me()
                && s.proposals[i].1.declined_at >= s.retention_cutoff {
            let i = choose|i: int|
                0 <= i < s.proposals.len() && (#[trigger] s.proposals[i]).0 == e->Withdrawn_id
                    && s.proposals[i].1.withdrawn && s.proposals[i].1.by == s.me()
                    && s.proposals[i].1.declined_at >= s.retention_cutoff;
            assert(shown(s.proposals[i]));
            s.proposals.lemma_filter_contains(shown, i);
            let j = choose|j: int| 0 <= j < kept.len() && kept[j] == s.proposals[i];
            assert(back[j] == e);
            assert(told[cards.len() + j] == e);
        }
    }
    if e is Declined {
        let d = DeclineV { id: e->Declined_id, hash: e->Declined_hash };
        if told.contains(e) {
            let k = choose|k: int| 0 <= k < told.len() && told[k] == e;
            if k < cards.len() {
                assert(cards[k] == e);
            } else if k < cards.len() + back.len() {
                assert(back[k - cards.len()] == e);
            } else {
                let j = k - cards.len() - back.len();
                assert(no[j] == e);
                assert(all[j] == d);
                assert(all.contains(d));
            }
        }
        if e->Declined_by == s.me() && all.contains(d) {
            let j = choose|j: int| 0 <= j < all.len() && all[j] == d;
            assert(no[j] == e);
            assert(told[cards.len() + back.len() + j] == e);
        }
        if exists|i: int|
            0 <= i < s.proposals.len() && (#[trigger] s.proposals[i]).0 == e->Declined_id
                && declines_still(s, e->Declined_id, s.proposals[i].1) && e->Declined_hash
                == identity::hash_text(canonical::payload_bytes(s.proposals[i].1.payload)) {
            let i = choose|i: int|
                0 <= i < s.proposals.len() && (#[trigger] s.proposals[i]).0 == e->Declined_id
                    && declines_still(s, e->Declined_id, s.proposals[i].1) && e->Declined_hash
                    == identity::hash_text(canonical::payload_bytes(s.proposals[i].1.payload));
            assert(s.card_declines(s.proposals).contains(d));
            assert(all.contains(d));
        }
        if exists|i: int|
            0 <= i < s.pending_declines.len() && (#[trigger] s.pending_declines[i]).0
                == e->Declined_id && serving::parked_voice(s.pending_declines[i].1, s.me())
                == Some(e->Declined_hash) {
            assert(all.contains(d));
        }
    }
}

/// What passes a filter comes from the list.
proof fn lemma_filter_from<A>(list: Seq<A>, pass: spec_fn(A) -> bool, j: int)
    requires
        0 <= j < list.filter(pass).len(),
    ensures
        exists|i: int| 0 <= i < list.len() && list[i] == list.filter(pass)[j],
    decreases list.len(),
{
    reveal(Seq::filter);
    let front = list.drop_last();
    if j < front.filter(pass).len() {
        lemma_filter_from(front, pass, j);
        let i = choose|i: int| 0 <= i < front.len() && front[i] == front.filter(pass)[j];
        assert(list[i] == front[i]);
    } else {
        assert(list[list.len() - 1] == list.filter(pass)[j]);
    }
}

/// What is told of the cards is proposals and approvals.
proof fn lemma_cards_kinds(s: StateV, cards: Seq<(u64, RecordV)>)
    ensures
        forall|k: int|
            0 <= k < s.cards_told(cards).len() ==> ((
            #[trigger] s.cards_told(cards)[k]) is Proposed || s.cards_told(cards)[k] is Approved),
    decreases cards.len(),
{
    lemma_cards_told(s, cards);
    if cards.len() > 0 {
        lemma_cards_kinds(s, cards.drop_last());
    }
}

/// Nothing is told of a proposal but what its card says, and no approval is
/// passed on that did not verify here.
pub proof fn nothing_unverified_is_told(s: StateV, e: WireV)
    requires
        table::keys_ascend(s.proposals),
        s.open_governance().contains(e),
    ensures
        e matches WireV::Proposed { id, surface, payload } ==> (table::get(
            s.proposals,
            id,
        ) matches Some(p) && p.state == ProposalState::Proposed && p.surface == surface
            && p.payload == payload),
        e matches WireV::Approved { id, by, height, sig } ==> (table::get(
            s.pending_sigs,
            id,
        ) matches Some(votes) && votes.height == height && votes.verified.contains(by)
            && votes.sigs.contains(AttestationV { member: by, sig })),
        e is Proposed || e is Approved || e is Withdrawn || e is Declined,
{
    let cards = s.cards_told(s.proposals);
    let back = s.withdrawals_told(s.proposals);
    let told = s.open_governance();
    lemma_withdrawals(s, s.proposals);
    let k = choose|k: int| 0 <= k < told.len() && told[k] == e;
    if k < cards.len() {
        lemma_cards_sound(s, s.proposals, k);
        let i = choose|i: int|
            0 <= i < s.proposals.len() && told_of(
                s,
                (#[trigger] s.proposals[i]).0,
                s.proposals[i].1,
            ).contains(cards[k]);
        let id = s.proposals[i].0;
        let p = s.proposals[i].1;
        table::a_row_is_what_is_read(s.proposals, i);
        let one = told_of(s, id, p);
        let j = choose|j: int| 0 <= j < one.len() && one[j] == e;
        if j > 0 {
            let votes = table::get(s.pending_sigs, id)->0;
            let pass = |a: AttestationV| votes.verified.contains(a.member);
            let kept = votes.sigs.filter(pass);
            votes.sigs.lemma_filter_pred(pass, j - 1);
            lemma_filter_from(votes.sigs, pass, j - 1);
            let m = choose|m: int| 0 <= m < votes.sigs.len() && votes.sigs[m] == kept[j - 1];
            assert(votes.sigs[m] == AttestationV { member: kept[j - 1].member, sig: kept[j - 1].sig });
            assert(e == (WireV::Approved {
                id,
                by: kept[j - 1].member,
                height: votes.height,
                sig: kept[j - 1].sig,
            }));
        }
    } else if k < cards.len() + back.len() {
        assert(back[k - cards.len()] == e);
    }
}

/// What is told of the cards is told of one of them.
proof fn lemma_cards_sound(s: StateV, cards: Seq<(u64, RecordV)>, k: int)
    requires
        0 <= k < s.cards_told(cards).len(),
    ensures
        exists|i: int|
            0 <= i < cards.len() && told_of(s, (#[trigger] cards[i]).0, cards[i].1).contains(
                s.cards_told(cards)[k],
            ),
    decreases cards.len(),
{
    lemma_cards_told(s, cards);
    let front = cards.drop_last();
    let rest = s.cards_told(front);
    if k < rest.len() {
        lemma_cards_sound(s, front, k);
        let i = choose|i: int|
            0 <= i < front.len() && told_of(s, (#[trigger] front[i]).0, front[i].1).contains(
                rest[k],
            );
        assert(cards[i] == front[i]);
    } else {
        let one = told_of(s, cards.last().0, cards.last().1);
        assert(one[k - rest.len()] == s.cards_told(cards)[k]);
        assert(cards[cards.len() - 1] == cards.last());
    }
}

/// A request names the height it asks from, and blocks of the own chain by
/// their hashes, the top first; the same request is not sent again while it
/// stands.
pub proof fn a_request_names_what_is_held(s: StateV, from: u64)
    ensures
        s.head is Some && s.catchup_from != Some(from) ==> {
            let w = s.requesting(from);
            &&& w.catchup_from == Some(from)
            &&& w.effects == s.effects.push(
                EffectV::Send { body: WireV::ChainRequest { from_height: from, known: s.known() } },
            )
            &&& w.blocks == s.blocks
        },
        s.head is None || s.catchup_from == Some(from) ==> s.requesting(from) == s,
        s.known().len() <= 16,
        s.blocks.len() == 0 ==> s.known().len() == 0,
        s.blocks.len() > 0 && one_height_each(s.blocks) ==> s.known().len() > 0 && s.known()[0]
            == (HeightHashV {
            height: s.blocks.last().height,
            hash: signers::block_hash_of(s.rid(), s.blocks.last()),
        }),
        forall|k: int|
            0 <= k < s.known().len() ==> exists|i: int|
                0 <= i < s.blocks.len() && (#[trigger] s.blocks[i]).height == (
                #[trigger] s.known()[k]).height && signers::block_hash_of(s.rid(), s.blocks[i])
                    == s.known()[k].hash,
        forall|j: int, k: int|
            0 <= j < k < s.known().len() ==> (#[trigger] s.known()[j]).height > (
            #[trigger] s.known()[k]).height,
{
    if s.blocks.len() > 0 {
        assert(0 * power2::pow2(16) == 0) by (nonlinear_arith);
        lemma_samples(s.rid(), s.blocks, s.blocks.last().height, 0, 16);
        if one_height_each(s.blocks) {
            lemma_block_at(s.blocks, s.blocks.len() - 1);
        }
    }
}

/// Is there one block at a height, at most?
pub open spec fn one_height_each(blocks: Seq<BlockV>) -> bool {
    forall|i: int, j: int|
        0 <= i < j < blocks.len() ==> (#[trigger] blocks[i]).height != (#[trigger] blocks[j]).height
}

/// The block at a height is the one that stands there.
pub proof fn lemma_block_at(blocks: Seq<BlockV>, i: int)
    requires
        one_height_each(blocks),
        0 <= i < blocks.len(),
    ensures
        sync::block_at(blocks, blocks[i].height) == Some(blocks[i]),
    decreases blocks.len(),
{
    if i > 0 {
        assert(blocks[0].height != blocks[i].height);
        let rest = blocks.skip(1);
        assert forall|a: int, b: int| 0 <= a < b < rest.len() implies (#[trigger] rest[a]).height
            != (#[trigger] rest[b]).height by {
            assert(rest[a] == blocks[a + 1] && rest[b] == blocks[b + 1]);
        }
        assert(rest[i - 1] == blocks[i]);
        lemma_block_at(rest, i - 1);
    }
}

/// The block found at a height is one of the blocks, of that height.
pub proof fn lemma_block_found(blocks: Seq<BlockV>, height: u64) -> (i: int)
    requires
        sync::block_at(blocks, height) is Some,
    ensures
        0 <= i < blocks.len(),
        blocks[i].height == height,
        blocks[i] == sync::block_at(blocks, height)->0,
    decreases blocks.len(),
{
    if blocks[0].height == height {
        0
    } else {
        let i = lemma_block_found(blocks.skip(1), height);
        i + 1
    }
}

/// The samples name blocks that are held, ever further down.
proof fn lemma_samples(rid: Seq<char>, blocks: Seq<BlockV>, top: u64, back: u64, n: nat)
    requires
        n <= 16,
        back * power2::pow2(n) <= 0x1_0000_0000,
    ensures
        ({
            let list = sync::samples(rid, blocks, top, back, n);
            &&& list.len() <= n
            &&& forall|k: int|
                0 <= k < list.len() ==> exists|i: int|
                    0 <= i < blocks.len() && (#[trigger] blocks[i]).height == (
                    #[trigger] list[k]).height && signers::block_hash_of(rid, blocks[i])
                        == list[k].hash
            &&& forall|k: int| 0 <= k < list.len() ==> (#[trigger] list[k]).height + back <= top
            &&& forall|j: int, k: int|
                0 <= j < k < list.len() ==> (#[trigger] list[j]).height > (
                #[trigger] list[k]).height
        }),
    decreases n,
{
    let list = sync::samples(rid, blocks, top, back, n);
    if n > 0 && back <= top && sync::block_at(blocks, (top - back) as u64) is Some {
        let next = sync::further_back(back);
        power2::lemma_pow2_unfold(n);
        power2::lemma_pow2_pos((n - 1) as nat);
        power2::lemma2_to64();
        assert(back * power2::pow2(n) == (back * 2) * power2::pow2((n - 1) as nat)) by (nonlinear_arith)
            requires
                power2::pow2(n) == 2 * power2::pow2((n - 1) as nat),
        ;
        assert(back * 2 <= 0x1_0000_0000) by (nonlinear_arith)
            requires
                (back * 2) * power2::pow2((n - 1) as nat) <= 0x1_0000_0000,
                power2::pow2((n - 1) as nat) >= 1,
        ;
        if n < 16 {
            power2::lemma_pow2_strictly_increases(n, 16);
        }
        assert(next * power2::pow2((n - 1) as nat) <= 0x1_0000_0000);
        let rest = sync::samples(rid, blocks, top, next, (n - 1) as nat);
        lemma_samples(rid, blocks, top, next, (n - 1) as nat);
        let i = lemma_block_found(blocks, (top - back) as u64);
        assert(list[0].height == top - back);
        assert(blocks[i].height == list[0].height);
        assert forall|k: int| 0 <= k < list.len() implies exists|i: int|
            0 <= i < blocks.len() && (#[trigger] blocks[i]).height == (#[trigger] list[k]).height
                && signers::block_hash_of(rid, blocks[i]) == list[k].hash by {
            if k > 0 {
                assert(list[k] == rest[k - 1]);
            }
        }
        assert forall|j: int, k: int| 0 <= j < k < list.len() implies (#[trigger] list[j]).height
            > (#[trigger] list[k]).height by {
            assert(list[k] == rest[k - 1]);
            if j > 0 {
                assert(list[j] == rest[j - 1]);
            }
        }
        assert forall|k: int| 0 <= k < list.len() implies (#[trigger] list[k]).height + back
            <= top by {
            if k > 0 {
                assert(list[k] == rest[k - 1]);
            }
        }
    }
}

/// A request is served from right above the highest block that both hold, and
/// from where it asks where they share none.
pub proof fn a_request_is_served_from_the_fork(s: StateV, from: u64, known: Seq<HeightHashV>)
    ensures
        (forall|i: int| 0 <= i < known.len() ==> !held_here(s, #[trigger] known[i]))
            ==> s.serve_from(from, known) == from,
        (exists|i: int| 0 <= i < known.len() && held_here(s, #[trigger] known[i])) ==> exists|
            i: int,
        |
            0 <= i < known.len() && held_here(s, #[trigger] known[i]) && s.serve_from(from, known)
                == (if known[i].height < u64::MAX {
                known[i].height + 1
            } else {
                u64::MAX as int
            }) && forall|j: int|
                0 <= j < known.len() && held_here(s, #[trigger] known[j]) ==> known[j].height
                    <= known[i].height,
{
    lemma_above(s, known);
}

/// Is that block held here?
pub open spec fn held_here(s: StateV, sample: HeightHashV) -> bool {
    exists|i: int|
        0 <= i < s.blocks.len() && (#[trigger] s.blocks[i]).height == sample.height
            && signers::block_hash_of(s.rid(), s.blocks[i]) == sample.hash
}

/// One above the highest that is known here.
proof fn lemma_above(s: StateV, known: Seq<HeightHashV>)
    ensures
        match sync::above_known(s.rid(), s.blocks, known) {
            None => forall|i: int| 0 <= i < known.len() ==> !held_here(s, #[trigger] known[i]),
            Some(h) => exists|i: int|
                0 <= i < known.len() && held_here(s, #[trigger] known[i]) && h == (
                if known[i].height < u64::MAX {
                    known[i].height + 1
                } else {
                    u64::MAX as int
                }) && forall|j: int|
                    0 <= j < known.len() && held_here(s, #[trigger] known[j]) ==> known[j].height
                        <= known[i].height,
        },
    decreases known.len(),
{
    if known.len() > 0 {
        let front = known.drop_last();
        let top = known.last();
        lemma_above(s, front);
        let rest = sync::above_known(s.rid(), s.blocks, front);
        assert(known[known.len() - 1] == top);
        assert(held_here(s, top) == sync::sample_known(s.rid(), s.blocks, top));
        match rest {
            None => {
                if held_here(s, top) {
                    assert forall|j: int|
                        0 <= j < known.len() && held_here(
                            s,
                            #[trigger] known[j],
                        ) implies known[j].height <= top.height by {
                        if j < front.len() {
                            assert(front[j] == known[j]);
                        }
                    }
                } else {
                    assert forall|i: int| 0 <= i < known.len() implies !held_here(
                        s,
                        #[trigger] known[i],
                    ) by {
                        if i < front.len() {
                            assert(front[i] == known[i]);
                        }
                    }
                }
            },
            Some(h) => {
                let i = choose|i: int|
                    0 <= i < front.len() && held_here(s, #[trigger] front[i]) && h == (
                    if front[i].height < u64::MAX {
                        front[i].height + 1
                    } else {
                        u64::MAX as int
                    }) && forall|j: int|
                        0 <= j < front.len() && held_here(
                            s,
                            #[trigger] front[j],
                        ) ==> front[j].height <= front[i].height;
                assert(known[i] == front[i]);
                let best = if held_here(s, top) && top.height > known[i].height {
                    known.len() - 1
                } else {
                    i
                };
                assert forall|j: int|
                    0 <= j < known.len() && held_here(
                        s,
                        #[trigger] known[j],
                    ) implies known[j].height <= known[best].height by {
                    if j < front.len() {
                        assert(front[j] == known[j]);
                    }
                }
                assert(held_here(s, known[best]));
            },
        }
    }
}

} // verus!
