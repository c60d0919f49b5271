//! A holder's own chain: verifying in its own context, extending by one block,
//! and summarizing at a cut.

use crate::fault::{Fault, FaultV};
use crate::fold;
use crate::fold::{checkpoint_state, fold_state};
use crate::model::{BlockV, ChainBlock, CheckpointState, SummaryV};
use crate::signers::{ChainHead, HeadV};
use crate::state::{State, StateV};
use crate::walk;
use crate::walk::{walk_chain, walk_suffix_chain, ChainWalk, WalkV};
use std::collections::BTreeSet;
use vstd::prelude::*;
use vstd::string::*;

verus! {

/// Is `top` the largest of the ids?
pub open spec fn is_top(ids: Set<u64>, top: u64) -> bool {
    ids.contains(top) && forall|o: u64| #[trigger] ids.contains(o) ==> o <= top
}

/// The largest of the ids, if there is one.
pub open spec fn top_of(ids: Set<u64>) -> Option<u64> {
    if exists|t: u64| is_top(ids, t) {
        Some(choose|t: u64| is_top(ids, t))
    } else {
        None
    }
}

/// The largest of the ids.
pub fn largest(ids: &BTreeSet<u64>) -> (r: Option<u64>)
    ensures
        r == top_of(ids@),
{
    broadcast use vstd::std_specs::btree::group_btree_axioms;

    let mut top: Option<u64> = None;
    let ghost keys = vstd::std_specs::iter::IteratorSpec::remaining(&ids.iter()).unref();
    for id in it: ids.iter()
        invariant
            keys.to_set() == ids@,
            it.seq().unref() == keys,
            top is None ==> it.index() == 0,
            top is Some ==> ids@.contains(top->0),
            forall|k: int| 0 <= k < it.index() ==> top is Some && #[trigger] keys[k] <= top->0,
    {
        assert(keys[it.index()] == *id);
        assert(keys.contains(*id));
        let bigger = match top {
            Some(t) => t < *id,
            None => true,
        };
        if bigger {
            top = Some(*id);
        }
    }
    proof {
        assert forall|o: u64| ids@.contains(o) implies top is Some && o <= top->0 by {
            assert(keys.contains(o));
        }
        if top is Some {
            assert(is_top(ids@, top->0));
        }
    }
    top
}

impl StateV {
    /// What the summary that the chain is anchored on covers.
    pub open spec fn covered(self) -> Option<u64> {
        match self.checkpoint_blob {
            Some(b) => Some(b.upto),
            None => None,
        }
    }

    /// The walk of a chain in this holder's context: from the founding, or
    /// from the summary that the holder is anchored on.
    pub open spec fn walked_here(self, blocks: Seq<BlockV>) -> Result<WalkV, FaultV> {
        match self.checkpoint_blob {
            None => walk::walked(blocks),
            Some(blob) => walk::walked_suffix(blob, blocks, self.rid()),
        }
    }

    /// The walk of the own chain: the kept one where it still describes the
    /// chain, a fresh one otherwise.
    pub open spec fn own_walk(self) -> Result<WalkV, FaultV> {
        if self.walk is Some && walk::describes_chain(self.walk->0, self.blocks, self.covered()) {
            Ok(self.walk->0)
        } else {
            self.walked_here(self.blocks)
        }
    }

    /// The head after one more block, or why the block does not fit.
    pub open spec fn extension(self, block: BlockV) -> Result<HeadV, FaultV> {
        match self.own_walk() {
            Err(e) => Err(e),
            Ok(w) => match walk::stepped(w, block) {
                Err(e) => Err(e),
                Ok(next) => Ok(next.head),
            },
        }
    }

    /// The state with the walk of the own chain kept: with the block where it
    /// fits, without it where it is refused.
    pub open spec fn walk_kept(self, block: BlockV) -> StateV {
        StateV {
            walk: match self.own_walk() {
                Err(e) => None,
                Ok(w) => match walk::stepped(w, block) {
                    Err(e) => Some(w),
                    Ok(next) => Some(next),
                },
            },
            ..self
        }
    }

    /// The summary of the own chain at `upto`.
    pub open spec fn own_summary(self, upto: u64) -> Result<SummaryV, FaultV> {
        match self.checkpoint_blob {
            None => fold::summary_of(self.blocks, upto),
            Some(blob) => fold::state_through(blob, self.blocks, upto),
        }
    }
}

impl State {
    /// Walks a chain in this holder's context.
    pub fn walk_own(&self, blocks: &[ChainBlock]) -> (r: Result<ChainWalk, Fault>)
        ensures
            match r {
                Ok(w) => self.deep_view().walked_here(blocks.deep_view()) == Ok::<WalkV, FaultV>(
                    w.deep_view(),
                ),
                Err(e) => self.deep_view().walked_here(blocks.deep_view()) == Err::<WalkV, FaultV>(
                    e.deep_view(),
                ),
            },
    {
        match &self.checkpoint_blob {
            None => walk_chain(blocks),
            Some(blob) => {
                let rid = self.republic_id();
                walk_suffix_chain(blob, blocks, rid.as_str())
            },
        }
    }

    /// Verifies a chain in this holder's context.
    pub fn verify_own(&self, blocks: &[ChainBlock]) -> (r: Result<ChainHead, String>)
        ensures
            match r {
                Ok(h) => walk::verified_head(self.deep_view().walked_here(blocks.deep_view()))
                    == Ok::<HeadV, Seq<char>>(h.deep_view()),
                Err(e) => walk::verified_head(self.deep_view().walked_here(blocks.deep_view()))
                    == Err::<HeadV, Seq<char>>(e@),
            },
    {
        match self.walk_own(blocks) {
            Ok(w) => Ok(w.head),
            Err(e) => Err(e.text()),
        }
    }

    /// Verifies one block as the extension of the chain held. The kept walk is
    /// used only while it still describes the chain, and a refused block
    /// leaves it as it was.
    pub fn extend_own(&mut self, block: &ChainBlock) -> (r: Result<ChainHead, Fault>)
        ensures
            final(self).deep_view() == old(self).deep_view().walk_kept(block.deep_view()),
            match r {
                Ok(h) => old(self).deep_view().extension(block.deep_view()) == Ok::<HeadV, FaultV>(
                    h.deep_view(),
                ),
                Err(e) => old(self).deep_view().extension(block.deep_view()) == Err::<
                    HeadV,
                    FaultV,
                >(e.deep_view()),
            },
    {
        let ghost before = self.deep_view();
        let kept = self.walk.take();
        assert(self.deep_view() == StateV { walk: None, ..before });
        let fits = match &kept {
            Some(w) => w.describes(self.blocks.as_slice(), self.checkpoint_blob.as_ref()),
            None => false,
        };
        let mut walk: ChainWalk = match kept {
            Some(w) if fits => w,
            _ => match self.walk_own(self.blocks.as_slice()) {
                Ok(w) => w,
                Err(e) => {
                    return Err(e);
                },
            },
        };
        let stepped = walk.step(block);
        let head = walk.head.clone();
        self.walk = Some(walk);
        match stepped {
            Ok(()) => Ok(head),
            Err(e) => Err(e),
        }
    }

    /// The summary of the own chain at `upto`.
    pub fn own_checkpoint_state(&self, upto: u64) -> (r: Result<CheckpointState, Fault>)
        ensures
            match r {
                Ok(s) => self.deep_view().own_summary(upto) == Ok::<SummaryV, FaultV>(
                    s.deep_view(),
                ),
                Err(e) => self.deep_view().own_summary(upto) == Err::<SummaryV, FaultV>(
                    e.deep_view(),
                ),
            },
    {
        match &self.checkpoint_blob {
            None => checkpoint_state(self.blocks.as_slice(), upto),
            Some(blob) => fold_state(blob.clone(), self.blocks.as_slice(), upto),
        }
    }
}

} // verus!
