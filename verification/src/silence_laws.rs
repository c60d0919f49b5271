//! What a holder keeps to itself: what it did not decide is never signed in its
//! name, whatever else is signed and sealed while the votes move, and a block
//! that it sealed is not told before it is written.

use crate::card_laws;
use crate::fold;
use crate::governance;
use crate::model::{BlockV, ChangeV};
use crate::projection;
use crate::projection::DecisionV;
use crate::sealing;
use crate::state;
use crate::state::{EffectV, ProposalState, RecordV, StateV, WireV};
use crate::table;
use vstd::prelude::*;

verus! {

/// Is that effect an approval of `id` being sent?
pub open spec fn approves(effect: EffectV, id: u64) -> bool {
    match effect {
        EffectV::Send { body: WireV::Approved { id: approved, .. } } => approved == id,
        _ => false,
    }
}

/// Is that effect a sealed block being told to the members?
pub open spec fn tells(effect: EffectV) -> bool {
    match effect {
        EffectV::Send { body: WireV::Committed { .. } } => true,
        _ => false,
    }
}

/// Is `id` one that was minted before and that this holder did not decide?
pub open spec fn undecided(s: StateV, id: u64) -> bool {
    id < s.next_id && !s.own_approvals.contains(id)
}

/// Must `id` not be signed again? It is one that was minted before, and this
/// holder did not decide it, or it is not open, or it is a wiki patch that the
/// base may have left behind.
pub open spec fn barred(s: StateV, id: u64) -> bool {
    &&& id < s.next_id
    &&& !s.own_approvals.contains(id) || s.card_state(id) != Some(ProposalState::Proposed)
        || s.vote_waits(id)
}

/// Is what was to be done before still to be done, and first?
pub open spec fn still_to_do(s: StateV, t: StateV) -> bool {
    &&& s.effects.len() <= t.effects.len()
    &&& forall|i: int| 0 <= i < s.effects.len() ==> t.effects[i] == #[trigger] s.effects[i]
}

/// On the way from `s` to `t`, was no undecided `id` decided, no approval of a
/// barred one sent, and did a holder with a storage tell no block?
pub open spec fn silent(s: StateV, t: StateV, id: u64) -> bool {
    &&& still_to_do(s, t)
    &&& undecided(s, id) ==> undecided(t, id)
    &&& barred(s, id) ==> barred(t, id) && forall|i: int|
        s.effects.len() <= i < t.effects.len() ==> !approves(#[trigger] t.effects[i], id)
    &&& s.wiki_asked > 0 ==> t.wiki_asked > 0
    &&& t.stored == s.stored
    &&& s.stored ==> forall|i: int|
        s.effects.len() <= i < t.effects.len() ==> !tells(#[trigger] t.effects[i])
}

/// Two silent ways make one.
pub proof fn lemma_silent_way(a: StateV, b: StateV, c: StateV, id: u64)
    requires
        silent(a, b, id),
        silent(b, c, id),
    ensures
        silent(a, c, id),
{
    assert forall|i: int| 0 <= i < a.effects.len() implies c.effects[i] == #[trigger] a.effects[i] by {
        assert(b.effects[i] == a.effects[i]);
    }
    assert forall|i: int| a.effects.len() <= i < b.effects.len() implies #[trigger] c.effects[i]
        == b.effects[i] by {
        assert(c.effects[i] == b.effects[i]);
    }
}

/// What only settles cards opens nothing that was barred.
proof fn lemma_settled_stays_barred(s: StateV, t: StateV, id: u64)
    requires
        card_laws::only_settles(s, t),
        s.next_id <= t.next_id,
        s.own_approvals == t.own_approvals,
        s.wiki_asked > 0 ==> t.wiki_asked > 0,
        barred(s, id),
    ensures
        barred(t, id),
{
    let card = table::get(t.proposals, id);
}

/// A vote forgotten is forgotten in silence.
pub proof fn lemma_forgetting_one_silent(s: StateV, other: u64, id: u64)
    ensures
        silent(s, s.forgetting(other), id),
{
    card_laws::lemma_forgetting_settles(s, other);
    if barred(s, id) {
        lemma_settled_stays_barred(s, s.forgetting(other), id);
    }
}

/// Applying a card is silent.
proof fn lemma_card_applied_silent(s: StateV, other: u64, id: u64)
    ensures
        silent(s, s.card_applied(other), id),
{
    card_laws::lemma_card_applied_settles(s, other);
    if barred(s, id) {
        lemma_settled_stays_barred(s, s.card_applied(other), id);
    }
}

/// Making a card is silent: it is not an open one.
proof fn lemma_card_made_silent(s: StateV, d: projection::DecisionV, id: u64)
    ensures
        silent(s, s.card_made(d), id),
{
    if !table::has(s.proposals, d.id) {
        table::reading_a_put(
            s.proposals,
            d.id,
            RecordV {
                state: ProposalState::Applied,
                ..governance::open_card(d.surface, d.payload, Seq::empty())
            },
            id,
        );
    }
}

/// Forgetting votes is silent.
proof fn lemma_forgetting_silent(s: StateV, ids: Seq<u64>, id: u64)
    ensures
        silent(s, s.forgetting_each(ids), id),
    decreases ids.len(),
{
    if ids.len() > 0 {
        let before = s.forgetting_each(ids.drop_last());
        lemma_forgetting_silent(s, ids.drop_last(), id);
        lemma_forgetting_one_silent(before, ids.last(), id);
        lemma_silent_way(s, before, s.forgetting_each(ids), id);
    }
}

/// Applying cards is silent.
proof fn lemma_cards_applied_silent(s: StateV, ids: Seq<u64>, id: u64)
    ensures
        silent(s, s.cards_applied(ids), id),
    decreases ids.len(),
{
    if ids.len() > 0 {
        let before = s.cards_applied(ids.drop_last());
        let applied = before.card_applied(ids.last());
        lemma_cards_applied_silent(s, ids.drop_last(), id);
        lemma_card_applied_silent(before, ids.last(), id);
        lemma_silent_way(s, before, applied, id);
        assert(silent(applied, s.cards_applied(ids), id));
        lemma_silent_way(s, applied, s.cards_applied(ids), id);
    }
}

/// Settling a membership change is silent.
proof fn lemma_membership_silent(s: StateV, change: ChangeV, id: u64)
    ensures
        silent(s, s.membership_settled(change), id),
{
    match change {
        ChangeV::Membership { op, member, .. } => {
            let ids = governance::open_cards_of(s.proposals, op, member);
            lemma_cards_applied_silent(s, ids, id);
            let applied = s.cards_applied(ids);
            let named = governance::ids_naming(applied.proposal_changes, change);
            lemma_forgetting_silent(applied, named, id);
            lemma_silent_way(s, applied, applied.forgetting_each(named), id);
        },
        _ => {},
    }
}

/// Making cards is silent.
proof fn lemma_cards_made_silent(s: StateV, missing: Seq<projection::DecisionV>, id: u64)
    ensures
        silent(s, s.cards_made(missing), id),
    decreases missing.len(),
{
    if missing.len() > 0 {
        let before = s.cards_made(missing.drop_last());
        let made = before.card_made(missing.last());
        lemma_cards_made_silent(s, missing.drop_last(), id);
        lemma_card_made_silent(before, missing.last(), id);
        lemma_silent_way(s, before, made, id);
        lemma_forgetting_one_silent(made, missing.last().id, id);
        lemma_silent_way(s, made, s.cards_made(missing), id);
    }
}

/// Settling cards is silent.
proof fn lemma_cards_settled_silent(s: StateV, open: Seq<projection::CardRefV>, id: u64)
    ensures
        silent(s, s.cards_settled(open), id),
    decreases open.len(),
{
    if open.len() > 0 {
        let before = s.cards_settled(open.drop_last());
        let applied = before.card_applied(open.last().id);
        let forgot = applied.forgetting(open.last().id);
        lemma_cards_settled_silent(s, open.drop_last(), id);
        lemma_card_applied_silent(before, open.last().id, id);
        lemma_silent_way(s, before, applied, id);
        lemma_forgetting_one_silent(applied, open.last().id, id);
        lemma_silent_way(s, applied, forgot, id);
        assert(silent(forgot, s.cards_settled(open), id));
        lemma_silent_way(s, forgot, s.cards_settled(open), id);
    }
}

/// Settling membership changes is silent.
proof fn lemma_memberships_silent(s: StateV, blocks: Seq<BlockV>, id: u64)
    ensures
        silent(s, s.memberships_settled(blocks), id),
    decreases blocks.len(),
{
    if blocks.len() > 0 {
        let before = s.memberships_settled(blocks.drop_last());
        lemma_memberships_silent(s, blocks.drop_last(), id);
        lemma_membership_silent(before, blocks.last().change, id);
        lemma_silent_way(s, before, s.memberships_settled(blocks), id);
    }
}

/// Projecting the chain anew is silent.
proof fn lemma_chain_applied_silent(s: StateV, id: u64)
    ensures
        silent(s, s.chain_applied(), id),
{
    let a = (StateV {
        applied: s.projected_groups(),
        applied_sigs: projection::applied_sigs_through(s.blocks),
        ..s
    }).doing(EffectV::AppliedReset);
    let missing = projection::cardless(a.proposals, a.summarized()) + projection::cardless(
        a.proposals,
        projection::decisions_sealed(a.blocks),
    );
    let open = projection::behind(a.proposals, a.summarized()) + projection::behind_ids(
        a.proposals,
        a.summarized_ids(),
    ) + projection::behind(a.proposals, projection::decisions_sealed(a.blocks));
    let b = a.cards_made(missing);
    let c = b.cards_settled(open);
    let d = c.memberships_settled(a.blocks);
    lemma_cards_made_silent(a, missing, id);
    lemma_cards_settled_silent(b, open, id);
    lemma_memberships_silent(c, a.blocks, id);
    lemma_silent_way(a, b, c, id);
    lemma_silent_way(a, c, d, id);
    sealing::lemma_cards_made_frame(a, missing);
    sealing::lemma_cards_settled_frame(b, open);
    assert(c.blocks == a.blocks);
    assert(silent(s, a, id));
    lemma_silent_way(s, a, d, id);
    let e = d.base_moved(None, None);
    assert(silent(d, e, id));
    lemma_silent_way(s, d, e, id);
    assert(silent(e, s.chain_applied(), id));
    lemma_silent_way(s, e, s.chain_applied(), id);
}

/// Settling a block is silent.
proof fn lemma_block_settled_silent(s: StateV, block: BlockV, id: u64)
    ensures
        silent(s, s.block_settled(block), id),
{
    match block.change {
        ChangeV::Applied { proposal_id, surface, payload } => {
            let made = s.card_made(DecisionV { id: proposal_id, surface, payload });
            let applied = made.card_applied(proposal_id);
            lemma_card_made_silent(s, DecisionV { id: proposal_id, surface, payload }, id);
            lemma_card_applied_silent(made, proposal_id, id);
            lemma_silent_way(s, made, applied, id);
            lemma_forgetting_one_silent(applied, proposal_id, id);
            let forgot = applied.forgetting(proposal_id);
            lemma_silent_way(s, applied, forgot, id);
            assert(forgot.proposals == s.block_settled(block).proposals);
        },
        ChangeV::Membership { op, member, .. } => {
            lemma_membership_silent(s, block.change, id);
            let settled = s.membership_settled(block.change);
            assert(silent(settled, s.block_settled(block), id));
            lemma_silent_way(s, settled, s.block_settled(block), id);
        },
        ChangeV::Checkpoint { upto, .. } => {
            let named = governance::ids_naming(s.proposal_changes, block.change);
            lemma_forgetting_silent(s, named, id);
            let forgot = s.forgetting_each(named);
            match forgot.own_summary(upto) {
                Ok(blob) => {
                    let cut = forgot.anchored_on(Some(blob));
                    let pruned = StateV {
                        blocks: sealing::blocks_from(cut.blocks, block.height),
                        ..cut
                    };
                    lemma_chain_applied_silent(pruned, id);
                    lemma_silent_way(s, forgot, pruned, id);
                    lemma_silent_way(s, pruned, pruned.chain_applied(), id);
                },
                Err(e) => {},
            }
        },
        _ => {},
    }
}

/// Appending a block is silent.
pub proof fn lemma_appending_silent(s: StateV, block: BlockV, id: u64)
    ensures
        silent(s, s.appending(block), id),
{
}

/// Dropping stale cuts is silent.
proof fn lemma_sweeping_silent(s: StateV, ids: Seq<u64>, id: u64)
    ensures
        silent(s, s.sweeping(ids), id),
    decreases ids.len(),
{
    if ids.len() > 0 {
        lemma_sweeping_silent(s, ids.drop_last(), id);
    }
}

/// Inserting another id brings none.
proof fn lemma_other_inserted(ids: Seq<u64>, other: u64, id: u64)
    requires
        other != id,
        fold::insert_id(ids, other).contains(id),
    ensures
        ids.contains(id),
    decreases ids.len(),
{
    let out = fold::insert_id(ids, other);
    let k = choose|k: int| 0 <= k < out.len() && out[k] == id;
    if ids.len() > 0 {
        let front = ids.drop_last();
        if ids.last() <= other {
            assert(ids[k] == id);
        } else {
            let inner = fold::insert_id(front, other);
            if k < inner.len() {
                assert(inner[k] == id);
                lemma_other_inserted(front, other, id);
                let j = choose|j: int| 0 <= j < front.len() && front[j] == id;
                assert(ids[j] == id);
            } else {
                assert(ids[ids.len() - 1] == id);
            }
        }
    }
}

/// Deciding another approval adds no decision on `id`.
proof fn lemma_other_id(ids: Seq<u64>, other: u64, id: u64)
    requires
        other != id,
    ensures
        state::with_id(ids, other).contains(id) ==> ids.contains(id),
{
    if !ids.contains(other) && state::with_id(ids, other).contains(id) {
        lemma_other_inserted(ids, other, id);
    }
}

pub proof fn lemma_signing_silent(s: StateV, other: u64, id: u64)
    requires
        barred(s, id) ==> other != id,
    ensures
        silent(s, s.signing(other), id),
    decreases s.room(), 2nat, 0nat,
{
    if s.can_sign(other) {
        let voiced = s.voicing(other);
        if undecided(s, id) {
            lemma_other_id(s.own_approvals, other, id);
        }
        assert(silent(s, voiced, id));
        lemma_committing_silent(voiced, other, id);
        lemma_silent_way(s, voiced, s.signing(other), id);
    }
}

pub proof fn lemma_committing_silent(s: StateV, other: u64, id: u64)
    ensures
        silent(s, s.committing(other), id),
    decreases s.room(), 1nat, 0nat,
{
    match s.sealable(other) {
        Some(block) => {
            lemma_sealing_silent(s, block, other, id);
        },
        None => {},
    }
}

proof fn lemma_sealing_silent(s: StateV, block: BlockV, other: u64, id: u64)
    ensures
        silent(s, s.sealing(block, other), id),
    decreases (u64::MAX - block.height) as nat, 6nat, 0nat,
{
    lemma_appending_silent(s, block, id);
    if s.accepts(block) {
        sealing::lemma_appended_head(s, block);
        let appended = s.appending(block).persisting();
        lemma_silent_way(s, s.appending(block), appended, id);
        lemma_after_applied_silent(appended, block, id);
        sealing::lemma_after_applied_rises(appended, block);
        let applied = appended.after_applied(block);
        lemma_silent_way(s, appended, applied, id);
        let settled = applied.forgetting(other);
        lemma_forgetting_one_silent(applied, other, id);
        lemma_silent_way(s, applied, settled, id);
        if s.stored || settled.wiki_asked > 0 {
            let waiting = settled.doing(EffectV::Sealed { id: other, block });
            assert(silent(settled, waiting, id));
            lemma_silent_way(s, settled, waiting, id);
        } else {
            let noted = settled.announced(block, other);
            assert(silent(settled, noted, id));
            lemma_silent_way(s, settled, noted, id);
            if noted.height() >= block.height {
                lemma_auto_checkpointing_silent(noted, id);
                lemma_silent_way(s, noted, noted.auto_checkpointing(), id);
            }
        }
    }
}

pub proof fn lemma_after_applied_silent(s: StateV, block: BlockV, id: u64)
    ensures
        silent(s, s.after_applied(block), id),
    decreases s.room(), 5nat, 0nat,
{
    lemma_block_settled_silent(s, block, id);
    sealing::lemma_block_settled_head(s, block);
    lemma_rebasing_silent(s.block_settled(block), id);
    lemma_silent_way(s, s.block_settled(block), s.after_applied(block), id);
}

pub proof fn lemma_rebasing_silent(s: StateV, id: u64)
    ensures
        silent(s, s.rebasing(), id),
    decreases s.room(), 4nat, 0nat,
{
    match s.target() {
        None => {},
        Some(target) => {
            let going = StateV { votes_wait: false, ..s };
            let cuts = sealing::stale_cuts(s.proposal_changes, s.height());
            let swept = going.sweeping(cuts);
            sealing::lemma_sweeping_frame(going, cuts);
            lemma_sweeping_silent(going, cuts, id);
            lemma_silent_way(s, going, swept, id);
            lemma_resigning_silent(swept, sealing::ids_below(s.pending_sigs, target), id);
            lemma_silent_way(s, swept, s.rebasing(), id);
        },
    }
}

proof fn lemma_resigning_silent(s: StateV, ids: Seq<u64>, id: u64)
    ensures
        silent(s, s.resigning(ids), id),
    decreases s.room(), 3nat, ids.len(),
{
    if ids.len() > 0 && !s.vote_waits(ids[0]) {
        let cleared = StateV { pending_sigs: table::del(s.pending_sigs, ids[0]), ..s };
        let signed = if s.own_approvals.contains(ids[0]) && s.card_state(ids[0]) == Some(
            ProposalState::Proposed,
        ) {
            lemma_signing_silent(cleared, ids[0], id);
            cleared.signing(ids[0])
        } else {
            cleared
        };
        assert(silent(s, cleared, id));
        lemma_silent_way(s, cleared, signed, id);
        if signed.height() >= s.height() {
            lemma_resigning_silent(signed, ids.skip(1), id);
            lemma_silent_way(s, signed, s.resigning(ids), id);
        }
    }
}

proof fn lemma_auto_checkpointing_silent(s: StateV, id: u64)
    ensures
        silent(s, s.auto_checkpointing(), id),
    decreases s.room(), 4nat, 0nat,
{
    if s.owes_checkpoint() {
        lemma_proposing_checkpoint_silent(s, id);
    }
}

proof fn lemma_proposing_checkpoint_silent(s: StateV, id: u64)
    ensures
        silent(s, s.proposing_checkpoint(), id),
    decreases s.room(), 3nat, 0nat,
{
    if s.checkpoint_outcome() is Ok {
        let announced = s.checkpoint_announced();
        assert(silent(s, announced, id));
        if s.self_cosign {
            if id != s.next_id {
                lemma_signing_silent(announced, s.next_id, id);
                lemma_silent_way(s, announced, s.proposing_checkpoint(), id);
            } else {
                let other: u64 = if s.next_id == 0 {
                    1
                } else {
                    0
                };
                assert(silent(s, announced, other));
                lemma_signing_silent(announced, s.next_id, other);
                lemma_silent_way(s, announced, s.proposing_checkpoint(), other);
            }
        }
    }
}

/// What this holder did not decide itself is never signed when the votes move
/// to a new height, whatever else is in the list: no approval of it is sent, now
/// or with anything that the others bring, and it stays undecided. The id is one
/// that was minted before: the holder's own next cut has a new one.
pub proof fn nothing_undecided_is_signed_again(s: StateV, ids: Seq<u64>, id: u64)
    requires
        undecided(s, id),
    ensures
        still_to_do(s, s.resigning(ids)),
        undecided(s.resigning(ids), id),
        forall|i: int|
            s.effects.len() <= i < s.resigning(ids).effects.len() ==> !approves(
                #[trigger] s.resigning(ids).effects[i],
                id,
            ),
{
    lemma_resigning_silent(s, ids, id);
}

/// A holder with a storage tells no block before it is known to be written.
/// Sealing hands the chain that ends in the block to the storage and asks, as
/// the last thing, what came of it; until then neither this block nor one that
/// is sealed along with it goes out.
pub proof fn nothing_is_told_before_it_is_written(s: StateV, block: BlockV, id: u64)
    requires
        s.stored,
        s.accepts(block),
    ensures
        ({
            let t = s.sealing(block, id);
            let write = EffectV::PersistChain {
                blob: s.checkpoint_blob,
                blocks: s.blocks.push(block),
            };
            &&& still_to_do(s, t)
            &&& forall|i: int|
                s.effects.len() <= i < t.effects.len() ==> !tells(#[trigger] t.effects[i])
            &&& exists|i: int|
                s.effects.len() <= i < t.effects.len() - 1 && #[trigger] t.effects[i] == write
            &&& t.effects.last() == (EffectV::Sealed { id, block })
        }),
{
    let t = s.sealing(block, id);
    let fresh = s.next_id;
    lemma_sealing_silent(s, block, id, fresh);
    lemma_appending_silent(s, block, fresh);
    sealing::lemma_appended_head(s, block);
    let first = s.appending(block);
    let appended = first.persisting();
    lemma_after_applied_silent(appended, block, fresh);
    let applied = appended.after_applied(block);
    let place = first.effects.len() as int;
    assert(first.checkpoint_blob == s.checkpoint_blob);
    assert(appended.effects[place] == (EffectV::PersistChain {
        blob: s.checkpoint_blob,
        blocks: s.blocks.push(block),
    }));
    assert(applied.effects[place] == appended.effects[place]);
    assert(t.effects == applied.effects.push(EffectV::Sealed { id, block }));
    assert(t.effects[place] == applied.effects[place]);
}

/// A write that failed tells nothing and changes nothing; one that held tells
/// the block first.
pub proof fn only_a_written_block_is_told(s: StateV, block: BlockV, id: u64)
    ensures
        s.seal_written(false, block, id) == s,
        ({
            let t = s.seal_written(true, block, id);
            &&& still_to_do(s, t)
            &&& t.effects.len() > s.effects.len()
            &&& t.effects[s.effects.len() as int] == (EffectV::Send {
                body: WireV::Committed { block },
            })
        }),
{
    let told = s.announced(block, id);
    lemma_auto_checkpointing_silent(told, s.next_id);
    let t = s.seal_written(true, block, id);
    assert(still_to_do(told, t));
    assert forall|i: int| 0 <= i < s.effects.len() implies t.effects[i] == #[trigger] s.effects[i] by {
        assert(told.effects[i] == s.effects[i]);
    }
    assert(t.effects[s.effects.len() as int] == told.effects[s.effects.len() as int]);
}

} // verus!
