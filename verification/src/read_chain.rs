//! The history that a holder shows: every committed block, newest first.

use crate::history;
use crate::history::chain_block_view;
use crate::model;
use crate::model::{AppliedGroup, BlockV, ChainBlockView, RowV, SummaryV};
use crate::payload::{Payload, PayloadV};
use crate::projection;
use crate::projection::DecisionV;
use crate::signers;
use crate::signers::seat_names;
use crate::state::{State, StateV};
use vstd::prelude::*;
use vstd::string::*;

verus! {

/// The rows of the blocks, newest first.
pub open spec fn rows_of(blocks: Seq<BlockV>) -> Seq<RowV> {
    Seq::new(blocks.len(), |i: int| history::row_of(blocks[blocks.len() - 1 - i]))
}

/// A decision below the cut as a row. Its place in the chain and its
/// signatures are not in the summary, so its height is zero and it names no
/// signers.
pub open spec fn row_below(d: DecisionV) -> RowV {
    RowV {
        height: 0,
        kind: "applied"@,
        surface: model::surface_name(d.surface),
        payload: d.payload,
        proposal_id: d.id,
        signers: Seq::empty(),
    }
}

/// The rows of the summarized decisions, newest first.
pub open spec fn rows_below(decisions: Seq<DecisionV>) -> Seq<RowV> {
    Seq::new(decisions.len(), |i: int| row_below(decisions[decisions.len() - 1 - i]))
}

/// The founding as a row: every founding member signed it.
pub open spec fn founding_row(blob: SummaryV) -> RowV {
    RowV {
        height: 0,
        kind: "genesis"@,
        surface: Seq::empty(),
        payload: PayloadV::Text(blob.founding_name),
        proposal_id: 0,
        signers: signers::seat_names_of(blob.founding_identities),
    }
}

impl StateV {
    /// The history: the blocks held, then what the summary keeps of the
    /// blocks below the cut.
    pub open spec fn history(self) -> Seq<RowV> {
        match self.checkpoint_blob {
            None => rows_of(self.blocks),
            Some(blob) => (rows_of(self.blocks) + rows_below(
                projection::decisions_in(blob.applied),
            )).push(founding_row(blob)),
        }
    }
}

/// Adds the rows of the summarized decisions, newest first.
fn add_rows_below(rows: &mut Vec<ChainBlockView>, applied: &Vec<AppliedGroup>)
    ensures
        final(rows).deep_view() == old(rows).deep_view() + rows_below(
            projection::decisions_in(applied.deep_view()),
        ),
{
    let ghost groups = applied.deep_view();
    let ghost start = rows.deep_view();
    let ghost whole = projection::decisions_in(groups);
    let mut i: usize = applied.len();
    proof {
        assert(groups.take(i as int) =~= groups);
        assert(rows_below(whole).take(0) =~= Seq::empty());
        assert(start + rows_below(whole).take(0) =~= start);
        assert(whole.skip(whole.len() as int) =~= Seq::empty());
        assert(projection::decisions_in(groups.take(i as int)) =~= whole.take(whole.len() as int));
    }
    let ghost mut left: int = whole.len() as int;
    while i > 0
        invariant
            i <= applied.len(),
            groups == applied.deep_view(),
            start == old(rows).deep_view(),
            whole == projection::decisions_in(groups),
            0 <= left <= whole.len(),
            projection::decisions_in(groups.take(i as int)) == whole.take(left),
            rows.deep_view() == start + rows_below(whole).take(whole.len() - left),
        decreases i,
    {
        let entries = &applied[i - 1].entries;
        let surface = applied[i - 1].surface;
        let ghost each = entries.deep_view();
        let ghost front = projection::decisions_in(groups.take(i - 1));
        let ghost part = projection::decisions_of(surface, each);
        proof {
            assert(groups.take(i as int).drop_last() =~= groups.take(i - 1));
            assert(groups.take(i as int).last() == applied@[i - 1].deep_view());
            assert(whole.take(left) == front + part);
            assert(whole.take(left).len() == left);
            assert((front + part).len() == front.len() + part.len());
        }
        let mut j: usize = entries.len();
        while j > 0
            invariant
                j <= entries.len(),
                each == entries.deep_view(),
                part == projection::decisions_of(surface, each),
                0 <= left <= whole.len(),
                left == front.len() + part.len(),
                whole.take(left) == front + part,
                rows.deep_view() == start + rows_below(whole).take(
                    whole.len() - (front.len() + j),
                ),
            decreases j,
        {
            let ghost done = rows.deep_view();
            let signers: Vec<String> = Vec::new();
            assert(signers.deep_view() =~= Seq::empty());
            let row = ChainBlockView {
                height: 0,
                kind: "applied".to_owned(),
                surface: surface.as_str().to_owned(),
                payload: entries[j - 1].payload.clone(),
                proposal_id: entries[j - 1].id,
                signers,
            };
            rows.push(row);
            proof {
                let at = front.len() + j - 1;
                assert(each[j - 1] == entries@[j - 1].deep_view());
                assert(whole.take(left)[at] == part[j - 1]);
                assert(whole[at] == part[j - 1]);
                let rb = rows_below(whole);
                let n = whole.len() - (front.len() + j);
                assert(rb[n] == row_below(whole[at]));
                assert(row.deep_view() == rb[n]);
                assert(rows.deep_view() =~= done.push(row.deep_view()));
                assert(done.push(row.deep_view()) =~= start + rb.take(n + 1));
            }
            j = j - 1;
        }
        proof {
            left = front.len() as int;
            assert(whole.take(left) =~= front) by {
                assert(whole.take((front.len() + part.len()) as int).take(left) =~= whole.take(
                    left,
                ));
                assert((front + part).take(left) =~= front);
            }
        }
        i = i - 1;
    }
    proof {
        assert(groups.take(0) =~= Seq::empty());
        assert(whole.take(left).len() == 0);
        assert(rows_below(whole).take(whole.len() as int) =~= rows_below(whole));
    }
}

impl State {
    /// The history of the open republic, newest first.
    pub fn cmd_read_chain(&self) -> (r: Vec<ChainBlockView>)
        ensures
            r.deep_view() == self.deep_view().history(),
    {
        let ghost blocks = self.blocks.deep_view();
        let ghost all = rows_of(blocks);
        let mut rows: Vec<ChainBlockView> = Vec::new();
        let mut i: usize = self.blocks.len();
        assert(rows.deep_view() =~= all.take(0));
        while i > 0
            invariant
                i <= self.blocks.len(),
                blocks == self.blocks.deep_view(),
                all == rows_of(blocks),
                rows.deep_view() == all.take(blocks.len() - i),
            decreases i,
        {
            let ghost done = rows.deep_view();
            let row = chain_block_view(&self.blocks[i - 1]);
            rows.push(row);
            proof {
                let n = blocks.len() - i;
                assert(blocks[i - 1] == self.blocks@[i - 1].deep_view());
                assert(row.deep_view() == all[n]);
                assert(rows.deep_view() =~= done.push(row.deep_view()));
                assert(done.push(row.deep_view()) =~= all.take(n + 1));
            }
            i = i - 1;
        }
        assert(all.take(blocks.len() as int) =~= all);
        match &self.checkpoint_blob {
            Some(blob) => {
                add_rows_below(&mut rows, &blob.applied);
                let ghost done = rows.deep_view();
                let row = ChainBlockView {
                    height: 0,
                    kind: "genesis".to_owned(),
                    surface: String::new(),
                    payload: Payload::Text(blob.founding_name.clone()),
                    proposal_id: 0,
                    signers: seat_names(&blob.founding_identities),
                };
                rows.push(row);
                proof {
                    assert(row.deep_view().surface =~= Seq::empty());
                    assert(row.deep_view() == founding_row(blob.deep_view()));
                    assert(rows.deep_view() =~= done.push(row.deep_view()));
                }
            },
            None => {},
        }
        rows
    }
}

} // verus!
