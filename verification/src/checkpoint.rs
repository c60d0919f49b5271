//! Checkpoints from other holders: the summary recomputed before a cut is
//! signed, and a lagging holder's re-anchoring on a served summary.

use crate::canonical::same_value;
use crate::fold;
use crate::fold::checkpoint_state_hash;
use crate::identity;
use crate::identity::republic_id;
use crate::model::{
    BlockV, ChainBlock, ChainChange, ChangeV, CheckpointState, MembershipOp, SummaryV, Surface,
};
use crate::signers::HeadV;
use crate::state::{Effect, EffectV, Event, EventV, State, StateV};
use crate::table;
use crate::table::Table;
use crate::votes;
use crate::votes::drop_name;
use crate::walk;
use crate::walk::walk_suffix_chain;
use vstd::prelude::*;
use vstd::string::*;

verus! {

/// Is exactly this change registered under another id?
pub open spec fn named_elsewhere(changes: Seq<(u64, ChangeV)>, id: u64, change: ChangeV) -> bool {
    exists|i: int|
        0 <= i < changes.len() && (#[trigger] changes[i]).0 != id && changes[i].1 == change
}

/// Is exactly this change registered under another id?
fn is_named_elsewhere(changes: &Table<ChainChange>, id: u64, change: &ChainChange) -> (r: bool)
    ensures
        r == named_elsewhere(changes.deep_view(), id, change.deep_view()),
{
    let ghost all = changes.deep_view();
    let rows = changes.rows();
    let mut i: usize = 0;
    while i < rows.len()
        invariant
            i <= rows.len(),
            all == changes.deep_view(),
            all == rows.deep_view(),
            forall|k: int|
                0 <= k < i ==> !((#[trigger] all[k]).0 != id && all[k].1 == change.deep_view()),
        decreases rows.len() - i,
    {
        assert(all[i as int] == rows@[i as int].deep_view());
        if rows[i].key != id && same_value(rows[i].value, change) {
            return true;
        }
        i = i + 1;
    }
    false
}

/// The blocks held for `height` and the heights right above it, as far as
/// they follow one another.
pub open spec fn run_from(rows: Seq<(u64, BlockV)>, height: u64) -> Seq<BlockV>
    decreases u64::MAX - height,
{
    match table::get(rows, height) {
        None => Seq::empty(),
        Some(b) => if height < u64::MAX {
            seq![b] + run_from(rows, (height + 1) as u64)
        } else {
            seq![b]
        },
    }
}

/// The blocks held for `height` and the heights right above it.
pub fn collect_run(rows: &Table<ChainBlock>, height: u64) -> (r: Vec<ChainBlock>)
    ensures
        r.deep_view() == run_from(rows.deep_view(), height),
{
    let ghost all = rows.deep_view();
    let mut out: Vec<ChainBlock> = Vec::new();
    let mut h: u64 = height;
    let mut more = true;
    proof {
        assert(out.deep_view() + run_from(all, h) =~= run_from(all, height));
    }
    while more
        invariant
            all == rows.deep_view(),
            h >= height,
            more ==> run_from(all, height) == out.deep_view() + run_from(all, h),
            !more ==> run_from(all, height) == out.deep_view(),
        decreases u64::MAX - h + (if more { 1int } else { 0int }),
    {
        let ghost done = out.deep_view();
        match rows.get(h) {
            Some(b) => {
                let copy = b.clone();
                out.push(copy);
                proof {
                    assert(out.deep_view() =~= done.push(copy.deep_view()));
                }
                if h < u64::MAX {
                    proof {
                        let next = run_from(all, (h + 1) as u64);
                        assert(done + (seq![copy.deep_view()] + next) =~= done.push(
                            copy.deep_view(),
                        ) + next);
                    }
                    h = h + 1;
                } else {
                    proof {
                        assert(done + seq![copy.deep_view()] =~= done.push(copy.deep_view()));
                    }
                    more = false;
                }
            },
            None => {
                assert(done + Seq::<BlockV>::empty() =~= done);
                more = false;
            },
        }
    }
    out
}

/// Does some block change the organization?
pub open spec fn touches_org(blocks: Seq<BlockV>) -> bool
    decreases blocks.len(),
{
    if blocks.len() == 0 {
        false
    } else {
        touches_org(blocks.drop_last()) || match blocks.last().change {
            ChangeV::Applied { surface, .. } => surface == Surface::Organization,
            _ => false,
        }
    }
}

impl StateV {
    /// A proposed cut heard. It is registered and signed where it is at the
    /// own head, hashes to the own summary, its id names nothing else and no
    /// other id names it already.
    pub open spec fn takes_cut(self, id: u64, upto: u64, state_hash: Seq<char>) -> bool {
        &&& self.plausible(id)
        &&& self.head is Some
        &&& self.head->0.height == upto
        &&& self.own_summary(upto) is Ok
        &&& fold::state_hash_of(self.own_summary(upto)->Ok_0) == state_hash
        &&& self.id_free(id, ChangeV::Checkpoint { upto, state_hash })
        &&& !named_elsewhere(self.proposal_changes, id, ChangeV::Checkpoint { upto, state_hash })
    }

    /// A proposed cut heard.
    pub open spec fn cut_heard(self, id: u64, upto: u64, state_hash: Seq<char>) -> StateV {
        if !self.plausible(id) {
            self
        } else if !self.takes_cut(id, upto, state_hash) {
            self.minting_past(id)
        } else {
            let minted = self.minting_past(id);
            let registered = StateV {
                proposal_changes: table::put(
                    minted.proposal_changes,
                    id,
                    ChangeV::Checkpoint { upto, state_hash },
                ),
                ..minted
            };
            if registered.own_stands(id) {
                registered
            } else {
                registered.signing(id)
            }
        }
    }

    /// Is a served summary of use? It is where this holder is behind it, none
    /// is waiting already and its founding recomputes to this republic.
    pub open spec fn wants_summary(self, blob: SummaryV) -> bool {
        let rid = identity::republic_id_of(
            blob.founding_name,
            blob.rule_m,
            blob.rule_n,
            blob.founding_identities,
        );
        &&& (self.head is Some ==> self.head->0.height < blob.upto)
        &&& self.pending_served_blob is None
        &&& rid == self.rid()
        &&& rid == blob.republic_id
    }

    /// A served summary heard.
    pub open spec fn summary_heard(self, blob: SummaryV) -> StateV {
        if self.wants_summary(blob) {
            (StateV { pending_served_blob: Some(blob), ..self }).re_anchoring()
        } else {
            self
        }
    }

    /// The blocks of a re-anchored suffix announced, in order.
    pub open spec fn suffix_told(self, blocks: Seq<BlockV>) -> StateV
        decreases blocks.len(),
    {
        if blocks.len() == 0 {
            self
        } else {
            let rest = self.suffix_told(blocks.drop_last());
            match blocks.last().change {
                ChangeV::Applied { proposal_id, surface, .. } => rest.emitting(
                    EventV::Applied { id: proposal_id, surface },
                ),
                ChangeV::Membership { op: MembershipOp::Restored, member, .. } => StateV {
                    announce_cooldown: votes::names_without(rest.announce_cooldown, member),
                    ..rest
                },
                _ => rest,
            }
        }
    }

    /// The catch-up request settled, where it asked from no higher than that.
    pub open spec fn caught_up(self, height: u64) -> StateV {
        if self.catchup_from is Some && self.catchup_from->0 <= height {
            StateV { catchup_from: None, ..self }
        } else {
            self
        }
    }

    /// The holder anchored on `blob` with the suffix that verified to `head`.
    pub open spec fn anchored_at(self, blob: SummaryV, suffix: Seq<BlockV>, head: HeadV) -> StateV {
        let moved = (StateV {
            blocks: suffix,
            head: Some(head),
            pending_served_blob: None,
            pending_blocks: table::above(self.pending_blocks, head.height),
            ..self.anchored_on(Some(blob))
        }).chain_applied();
        let told = moved.suffix_told(suffix);
        let refreshed = if touches_org(suffix) {
            told.doing(EffectV::OrgApplied)
        } else {
            told
        };
        refreshed.rebasing().persisting().caught_up(head.height)
    }

    /// The waiting summary tried with the blocks held above it. It is dropped
    /// where the chain has passed it or where it does not verify; nothing of
    /// it is trusted before it does.
    pub open spec fn re_anchoring(self) -> StateV {
        match self.pending_served_blob {
            None => self,
            Some(blob) => {
                let dropped = StateV { pending_served_blob: None, ..self };
                if (self.head is Some && self.head->0.height > blob.upto) || blob.upto == u64::MAX {
                    dropped
                } else if !table::has(self.pending_blocks, (blob.upto + 1) as u64) {
                    self
                } else {
                    let suffix = run_from(self.pending_blocks, (blob.upto + 1) as u64);
                    match walk::walked_suffix(blob, suffix, self.rid()) {
                        Ok(w) => self.anchored_at(blob, suffix, w.head),
                        Err(e) => dropped,
                    }
                }
            },
        }
    }
}

impl State {
    /// Hears a proposed cut. The summary is recomputed from the own chain and
    /// the cut signed only on an exact match: nobody signs a summary that is
    /// not its own.
    pub fn receive_checkpoint_proposal(&mut self, id: u64, upto: u64, state_hash: &str)
        ensures
            final(self).deep_view() == old(self).deep_view().cut_heard(id, upto, state_hash@),
    {
        if !self.plausible_wire_id(id) {
            return;
        }
        self.mint_past(id);
        match &self.head {
            Some(h) => {
                if h.height != upto {
                    return;
                }
            },
            None => {
                return;
            },
        }
        let ours = match self.own_checkpoint_state(upto) {
            Ok(summary) => checkpoint_state_hash(&summary),
            Err(_) => {
                return;
            },
        };
        if !crate::text::same_text(ours.as_str(), state_hash) {
            return;
        }
        let this = ChainChange::Checkpoint { upto, state_hash: state_hash.to_owned() };
        if !self.id_free_for(id, &this) {
            return;
        }
        if is_named_elsewhere(&self.proposal_changes, id, &this) {
            return;
        }
        self.proposal_changes.insert(id, this);
        if self.own_signature_stands(id) {
            return;
        }
        self.chain_sign_and_gossip_approval(id);
    }

    /// Hears a served summary: keeps it where it is of use, and tries it.
    pub fn receive_checkpoint_blob(&mut self, blob: CheckpointState)
        ensures
            final(self).deep_view() == old(self).deep_view().summary_heard(blob.deep_view()),
    {
        match &self.head {
            Some(h) => {
                if h.height >= blob.upto {
                    return;
                }
            },
            None => {},
        }
        if self.pending_served_blob.is_some() {
            return;
        }
        let rid = republic_id(
            blob.founding_name.as_str(),
            blob.rule_m,
            blob.rule_n,
            &blob.founding_identities,
        );
        let own = self.republic_id();
        if rid != own || rid != blob.republic_id {
            return;
        }
        self.pending_served_blob = Some(blob);
        self.try_adopt_from_blob();
    }

    /// Announces the blocks of a re-anchored suffix. Returns whether one of
    /// them changed the organization.
    fn tell_suffix(&mut self, suffix: &Vec<ChainBlock>) -> (r: bool)
        ensures
            final(self).deep_view() == old(self).deep_view().suffix_told(suffix.deep_view()),
            r == touches_org(suffix.deep_view()),
    {
        let ghost s = self.deep_view();
        let ghost all = suffix.deep_view();
        let mut org = false;
        let mut i: usize = 0;
        assert(all.take(0) =~= Seq::empty());
        while i < suffix.len()
            invariant
                i <= suffix.len(),
                all == suffix.deep_view(),
                s == old(self).deep_view(),
                self.deep_view() == s.suffix_told(all.take(i as int)),
                org == touches_org(all.take(i as int)),
            decreases suffix.len() - i,
        {
            proof {
                assert(all.take(i + 1).drop_last() =~= all.take(i as int));
                assert(all.take(i + 1).last() == suffix@[i as int].deep_view());
            }
            match &suffix[i].change {
                ChainChange::Applied { proposal_id, surface, .. } => {
                    self.emit(Event::Applied { id: *proposal_id, surface: *surface });
                    if *surface == Surface::Organization {
                        org = true;
                    }
                },
                ChainChange::Membership { op, member, .. } => {
                    if *op == MembershipOp::Restored {
                        self.announce_cooldown = drop_name(
                            &self.announce_cooldown,
                            member.as_str(),
                        );
                    }
                },
                _ => {},
            }
            i = i + 1;
        }
        assert(all.take(i as int) =~= all);
        org
    }

    /// Settles the catch-up request, where it asked from no higher than that.
    pub fn settle_catchup(&mut self, height: u64)
        ensures
            final(self).deep_view() == old(self).deep_view().caught_up(height),
    {
        match self.catchup_from {
            Some(from) => {
                if from <= height {
                    self.catchup_from = None;
                }
            },
            None => {},
        }
    }

    /// Tries the waiting summary with the blocks held above it: all of it
    /// verifies, or nothing is adopted.
    pub fn try_adopt_from_blob(&mut self)
        ensures
            final(self).deep_view() == old(self).deep_view().re_anchoring(),
    {
        let blob: CheckpointState = match &self.pending_served_blob {
            Some(b) => b.clone(),
            None => {
                return;
            },
        };
        let passed = match &self.head {
            Some(h) => h.height > blob.upto,
            None => false,
        };
        if passed || blob.upto == u64::MAX {
            self.pending_served_blob = None;
            return;
        }
        let first: u64 = blob.upto + 1;
        if !self.pending_blocks.contains_key(first) {
            return;
        }
        let candidate = collect_run(&self.pending_blocks, first);
        let rid = self.republic_id();
        match walk_suffix_chain(&blob, candidate.as_slice(), rid.as_str()) {
            Ok(walk) => {
                let height: u64 = walk.head.height;
                let copy = candidate.clone();
                self.set_checkpoint_blob(Some(blob));
                self.blocks = copy;
                self.head = Some(walk.head);
                self.pending_served_blob = None;
                self.pending_blocks.keep_above(height);
                self.apply_chain_to_state();
                if self.tell_suffix(&candidate) {
                    self.doing(Effect::OrgApplied);
                }
                self.rebase_pending_approvals();
                self.persist_chain_now();
                self.settle_catchup(height);
            },
            Err(_) => {
                self.pending_served_blob = None;
            },
        }
    }
}

} // verus!
