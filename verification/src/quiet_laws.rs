//! A holder without open votes: whatever the chain brings it, there is nothing to
//! sign, so nothing is sealed.

use crate::governance;
use crate::model::{BlockV, ChangeV};
use crate::projection;
use crate::sealing;
use crate::state::{EffectV, StateV};
use vstd::prelude::*;

verus! {

/// Are there no collected signatures?
pub open spec fn quiet(s: StateV) -> bool {
    s.pending_sigs.len() == 0
}

/// Forgetting votes brings none.
proof fn lemma_forgetting_quiet(s: StateV, ids: Seq<u64>)
    requires
        quiet(s),
    ensures
        quiet(s.forgetting_each(ids)),
    decreases ids.len(),
{
    if ids.len() > 0 {
        lemma_forgetting_quiet(s, ids.drop_last());
    }
}

/// Applying cards brings no vote.
proof fn lemma_cards_applied_quiet(s: StateV, ids: Seq<u64>)
    requires
        quiet(s),
    ensures
        quiet(s.cards_applied(ids)),
    decreases ids.len(),
{
    if ids.len() > 0 {
        lemma_cards_applied_quiet(s, ids.drop_last());
    }
}

/// Settling a membership change brings no vote.
proof fn lemma_membership_quiet(s: StateV, change: ChangeV)
    requires
        quiet(s),
    ensures
        quiet(s.membership_settled(change)),
{
    match change {
        ChangeV::Membership { op, member, .. } => {
            let ids = governance::open_cards_of(s.proposals, op, member);
            lemma_cards_applied_quiet(s, ids);
            let applied = s.cards_applied(ids);
            lemma_forgetting_quiet(
                applied,
                governance::ids_naming(applied.proposal_changes, change),
            );
        },
        _ => {},
    }
}

/// Making cards brings no vote.
proof fn lemma_cards_made_quiet(s: StateV, missing: Seq<projection::DecisionV>)
    requires
        quiet(s),
    ensures
        quiet(s.cards_made(missing)),
    decreases missing.len(),
{
    if missing.len() > 0 {
        lemma_cards_made_quiet(s, missing.drop_last());
    }
}

/// Settling cards brings no vote.
proof fn lemma_cards_settled_quiet(s: StateV, open: Seq<projection::CardRefV>)
    requires
        quiet(s),
    ensures
        quiet(s.cards_settled(open)),
    decreases open.len(),
{
    if open.len() > 0 {
        lemma_cards_settled_quiet(s, open.drop_last());
    }
}

/// Settling membership changes brings no vote.
proof fn lemma_memberships_quiet(s: StateV, blocks: Seq<BlockV>)
    requires
        quiet(s),
    ensures
        quiet(s.memberships_settled(blocks)),
    decreases blocks.len(),
{
    if blocks.len() > 0 {
        lemma_memberships_quiet(s, blocks.drop_last());
        lemma_membership_quiet(s.memberships_settled(blocks.drop_last()), blocks.last().change);
    }
}

/// Projecting the chain anew brings no vote.
pub proof fn lemma_chain_applied_quiet(s: StateV)
    requires
        quiet(s),
    ensures
        quiet(s.chain_applied()),
{
    let a = (StateV {
        applied: s.projected_groups(),
        applied_sigs: projection::applied_sigs_through(s.blocks),
        ..s
    }).doing(EffectV::AppliedReset);
    let missing = projection::cardless(a.proposals, a.summarized()) + projection::cardless(
        a.proposals,
        projection::decisions_sealed(a.blocks),
    );
    let open = projection::behind(a.proposals, a.summarized()) + projection::behind_ids(
        a.proposals,
        a.summarized_ids(),
    ) + projection::behind(a.proposals, projection::decisions_sealed(a.blocks));
    lemma_cards_made_quiet(a, missing);
    lemma_cards_settled_quiet(a.cards_made(missing), open);
    lemma_memberships_quiet(a.cards_made(missing).cards_settled(open), a.blocks);
}

/// Settling a block other than a cut brings no vote.
pub proof fn lemma_block_settled_quiet(s: StateV, block: BlockV)
    requires
        quiet(s),
        !(block.change is Checkpoint),
    ensures
        quiet(s.block_settled(block)),
{
    match block.change {
        ChangeV::Membership { .. } => {
            lemma_membership_quiet(s, block.change);
        },
        _ => {},
    }
}

/// Dropping stale cuts brings no vote.
proof fn lemma_sweeping_quiet(s: StateV, ids: Seq<u64>)
    requires
        quiet(s),
    ensures
        quiet(s.sweeping(ids)),
        s.sweeping(ids).votes_wait == s.votes_wait,
    decreases ids.len(),
{
    if ids.len() > 0 {
        lemma_sweeping_quiet(s, ids.drop_last());
    }
}

/// Without votes there are none to move: the chain stays as it is.
pub proof fn lemma_rebasing_quiet(s: StateV)
    requires
        quiet(s),
    ensures
        quiet(s.rebasing()),
        sealing::same_chain(s.rebasing(), s),
        sealing::same_sync(s.rebasing(), s),
        s.target() is Some ==> !s.rebasing().votes_wait,
{
    match s.target() {
        None => {},
        Some(target) => {
            let going = StateV { votes_wait: false, ..s };
            let cuts = sealing::stale_cuts(s.proposal_changes, s.height());
            lemma_sweeping_quiet(going, cuts);
            sealing::lemma_sweeping_frame(going, cuts);
            assert(sealing::ids_below(s.pending_sigs, target) =~= Seq::empty());
        },
    }
}

} // verus!
