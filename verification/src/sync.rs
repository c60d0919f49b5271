//! How blocks travel between holders: extending the chain, settling a contest
//! at its tip, re-basing onto another branch, catching up and serving.

use crate::canonical::same_value;
use crate::model::{BlockV, ChainBlock, ChainChange, ChangeV};
use crate::patches;
use crate::projection;
use crate::sealing;
use crate::sealing::keep_from;
use crate::signers;
use crate::signers::{block_hash, block_signers, ChainHead};
use crate::state;
use crate::state::{
    next_after, Event, EventV, HeightHash, HeightHashV, ProposalRecord, ProposalState, RecordV,
    State, StateV, WireV, WorkspaceEvent,
};
use crate::table;
use crate::table::Table;
use crate::text;
use crate::text::{same_text, text_before};
use crate::walk;
use vstd::prelude::*;
use vstd::string::*;

verus! {

/// How far past the head a held block may be, and how many are held at most.
pub const CATCHUP_BUFFER_WINDOW: u64 = 4096;

/// How many blocks are held at most.
pub const CATCHUP_BUFFER_MAX: usize = 4096;

/// How many heads a catch-up request names at most.
pub const KNOWN_HEADS_MAX: usize = 16;

/// The room left in a frame for the envelope around a served summary.
pub const ENVELOPE_RESERVE: usize = 2048;

/// The lowest rows, as many as may be held.
pub open spec fn capped<V>(rows: Seq<(u64, V)>) -> Seq<(u64, V)> {
    if rows.len() > CATCHUP_BUFFER_MAX {
        rows.take(CATCHUP_BUFFER_MAX as int)
    } else {
        rows
    }
}

/// Drops the highest rows beyond what may be held.
fn cap_rows(rows: &mut Table<ChainBlock>)
    ensures
        final(rows).deep_view() == capped(old(rows).deep_view()),
{
    rows.keep_first(CATCHUP_BUFFER_MAX);
}

/// The block at that height.
pub open spec fn block_at(blocks: Seq<BlockV>, height: u64) -> Option<BlockV>
    decreases blocks.len(),
{
    if blocks.len() == 0 {
        None
    } else if blocks[0].height == height {
        Some(blocks[0])
    } else {
        block_at(blocks.skip(1), height)
    }
}

/// The block at that height.
pub fn find_block<'a>(blocks: &'a Vec<ChainBlock>, height: u64) -> (r: Option<&'a ChainBlock>)
    ensures
        match r {
            Some(b) => block_at(blocks.deep_view(), height) == Some(b.deep_view()),
            None => block_at(blocks.deep_view(), height) is None,
        },
{
    let ghost all = blocks.deep_view();
    let mut i: usize = 0;
    assert(all.skip(0) =~= all);
    while i < blocks.len()
        invariant
            i <= blocks.len(),
            all == blocks.deep_view(),
            block_at(all, height) == block_at(all.skip(i as int), height),
        decreases blocks.len() - i,
    {
        assert(all.skip(i as int)[0] == blocks@[i as int].deep_view());
        if blocks[i].height == height {
            return Some(&blocks[i]);
        }
        assert(all.skip(i as int).skip(1) =~= all.skip(i + 1));
        i = i + 1;
    }
    None
}

/// The blocks below that height.
pub open spec fn blocks_below(blocks: Seq<BlockV>, height: u64) -> Seq<BlockV>
    decreases blocks.len(),
{
    if blocks.len() == 0 {
        blocks
    } else if blocks.last().height < height {
        blocks_below(blocks.drop_last(), height).push(blocks.last())
    } else {
        blocks_below(blocks.drop_last(), height)
    }
}

/// The blocks below that height.
fn keep_below(blocks: &Vec<ChainBlock>, height: u64) -> (r: Vec<ChainBlock>)
    ensures
        r.deep_view() == blocks_below(blocks.deep_view(), height),
{
    let ghost all = blocks.deep_view();
    let mut out: Vec<ChainBlock> = Vec::new();
    let mut i: usize = 0;
    assert(all.take(0) =~= Seq::empty());
    assert(out.deep_view() =~= Seq::empty());
    while i < blocks.len()
        invariant
            i <= blocks.len(),
            all == blocks.deep_view(),
            out.deep_view() == blocks_below(all.take(i as int), height),
        decreases blocks.len() - i,
    {
        let ghost done = out.deep_view();
        proof {
            assert(all.take(i + 1).drop_last() =~= all.take(i as int));
            assert(all.take(i + 1).last() == blocks@[i as int].deep_view());
        }
        if blocks[i].height < height {
            out.push(blocks[i].clone());
            assert(out.deep_view() =~= done.push(blocks@[i as int].deep_view()));
        }
        i = i + 1;
    }
    assert(all.take(i as int) =~= all);
    out
}

/// How far back the sample after `back` is.
pub open spec fn further_back(back: u64) -> u64 {
    if back == 0 {
        1
    } else if back * 2 <= u64::MAX {
        (back * 2) as u64
    } else {
        u64::MAX
    }
}

/// At most `n` samples of the own chain, from `back` below the top on, ever
/// further apart.
pub open spec fn samples(
    republic_id: Seq<char>,
    blocks: Seq<BlockV>,
    top: u64,
    back: u64,
    n: nat,
) -> Seq<HeightHashV>
    decreases n,
{
    if n == 0 || back > top {
        Seq::empty()
    } else {
        match block_at(blocks, (top - back) as u64) {
            None => Seq::empty(),
            Some(b) => seq![
                HeightHashV {
                    height: (top - back) as u64,
                    hash: signers::block_hash_of(republic_id, b),
                },
            ] + samples(republic_id, blocks, top, further_back(back), (n - 1) as nat),
        }
    }
}

/// Does this sample name a block of the chain?
pub open spec fn sample_known(
    republic_id: Seq<char>,
    blocks: Seq<BlockV>,
    sample: HeightHashV,
) -> bool {
    exists|i: int|
        0 <= i < blocks.len() && (#[trigger] blocks[i]).height == sample.height
            && signers::block_hash_of(republic_id, blocks[i]) == sample.hash
}

/// Does this sample name a block of the chain?
fn knows_sample(republic_id: &str, blocks: &Vec<ChainBlock>, sample: &HeightHash) -> (r: bool)
    ensures
        r == sample_known(republic_id@, blocks.deep_view(), sample.deep_view()),
{
    let ghost all = blocks.deep_view();
    let mut i: usize = 0;
    while i < blocks.len()
        invariant
            i <= blocks.len(),
            all == blocks.deep_view(),
            forall|k: int|
                0 <= k < i ==> !((#[trigger] all[k]).height == sample.height
                    && signers::block_hash_of(republic_id@, all[k]) == sample.hash@),
        decreases blocks.len() - i,
    {
        assert(all[i as int] == blocks@[i as int].deep_view());
        if blocks[i].height == sample.height {
            let hash = block_hash(republic_id, &blocks[i]);
            if hash == sample.hash {
                return true;
            }
        }
        i = i + 1;
    }
    false
}

/// One above the highest known sample, if one is known.
pub open spec fn above_known(
    republic_id: Seq<char>,
    blocks: Seq<BlockV>,
    known: Seq<HeightHashV>,
) -> Option<u64>
    decreases known.len(),
{
    if known.len() == 0 {
        None
    } else {
        let rest = above_known(republic_id, blocks, known.drop_last());
        if sample_known(republic_id, blocks, known.last()) {
            projection::larger_of(rest, Some(state::after(known.last().height)))
        } else {
            rest
        }
    }
}

/// Does a candidate link into the chain: above its anchor, on the block right
/// below it?
pub open spec fn links(
    republic_id: Seq<char>,
    blocks: Seq<BlockV>,
    height: u64,
    candidate: BlockV,
) -> bool {
    &&& blocks.len() > 0
    &&& height > blocks[0].height
    &&& block_at(blocks, (height - 1) as u64) is Some
    &&& signers::block_hash_of(republic_id, block_at(blocks, (height - 1) as u64)->0)
        == candidate.prev
}

/// The lowest height at which a candidate links into the chain.
pub open spec fn fork_height(
    republic_id: Seq<char>,
    blocks: Seq<BlockV>,
    candidates: Seq<(u64, BlockV)>,
) -> Option<u64>
    decreases candidates.len(),
{
    if candidates.len() == 0 {
        None
    } else if links(republic_id, blocks, candidates[0].0, candidates[0].1) {
        Some(candidates[0].0)
    } else {
        fork_height(republic_id, blocks, candidates.skip(1))
    }
}

/// The lowest height at which a candidate links into the chain.
fn find_fork(republic_id: &str, blocks: &Vec<ChainBlock>, candidates: &Table<ChainBlock>) -> (r:
    Option<u64>)
    ensures
        r == fork_height(republic_id@, blocks.deep_view(), candidates.deep_view()),
{
    let ghost all = candidates.deep_view();
    let rows = candidates.rows();
    let ghost own = blocks.deep_view();
    let mut i: usize = 0;
    assert(all.skip(0) =~= all);
    while i < rows.len()
        invariant
            i <= rows.len(),
            all == candidates.deep_view(),
            all == rows.deep_view(),
            own == blocks.deep_view(),
            fork_height(republic_id@, own, all) == fork_height(
                republic_id@,
                own,
                all.skip(i as int),
            ),
        decreases rows.len() - i,
    {
        proof {
            assert(all.skip(i as int)[0] == rows@[i as int].deep_view());
            assert(all.skip(i as int).skip(1) =~= all.skip(i + 1));
        }
        let height: u64 = rows[i].key;
        if blocks.len() > 0 {
            assert(own[0] == blocks@[0].deep_view());
            if height > blocks[0].height {
                match find_block(blocks, height - 1) {
                    Some(below) => {
                        let hash = block_hash(republic_id, below);
                        if hash == rows[i].value.prev {
                            return Some(height);
                        }
                    },
                    None => {},
                }
            }
        }
        i = i + 1;
    }
    None
}

/// The candidates from `height` on, as far as each links to the one below.
pub open spec fn linked_run(
    republic_id: Seq<char>,
    candidates: Seq<(u64, BlockV)>,
    height: u64,
    below: Option<Seq<char>>,
) -> Seq<BlockV>
    decreases u64::MAX - height,
{
    match table::get(candidates, height) {
        None => Seq::empty(),
        Some(c) => if below is Some && c.prev != below->0 {
            Seq::empty()
        } else if height < u64::MAX {
            seq![c] + linked_run(
                republic_id,
                candidates,
                (height + 1) as u64,
                Some(signers::block_hash_of(republic_id, c)),
            )
        } else {
            seq![c]
        },
    }
}

/// The candidates from `height` on, as far as each links to the one below.
fn collect_linked(republic_id: &str, candidates: &Table<ChainBlock>, height: u64) -> (r: Vec<
    ChainBlock,
>)
    ensures
        r.deep_view() == linked_run(republic_id@, candidates.deep_view(), height, None),
{
    let ghost all = candidates.deep_view();
    let ghost rid = republic_id@;
    let mut out: Vec<ChainBlock> = Vec::new();
    let mut below: Option<String> = None;
    let mut h: u64 = height;
    let mut more = true;
    proof {
        assert(out.deep_view() + linked_run(rid, all, h, None) =~= linked_run(
            rid,
            all,
            height,
            None,
        ));
    }
    while more
        invariant
            all == candidates.deep_view(),
            rid == republic_id@,
            h >= height,
            more ==> linked_run(rid, all, height, None) == out.deep_view() + linked_run(
                rid,
                all,
                h,
                below.deep_view(),
            ),
            !more ==> linked_run(rid, all, height, None) == out.deep_view(),
        decreases u64::MAX - h + (if more { 1int } else { 0int }),
    {
        let ghost done = out.deep_view();
        match candidates.get(h) {
            Some(c) => {
                let fits = match &below {
                    Some(hash) => same_text(hash.as_str(), c.prev.as_str()),
                    None => true,
                };
                if !fits {
                    assert(done + Seq::<BlockV>::empty() =~= done);
                    more = false;
                } else {
                    let copy = c.clone();
                    let hash = block_hash(republic_id, &copy);
                    out.push(copy);
                    proof {
                        assert(out.deep_view() =~= done.push(copy.deep_view()));
                    }
                    if h < u64::MAX {
                        proof {
                            let next = linked_run(rid, all, (h + 1) as u64, Some(hash@));
                            assert(done + (seq![copy.deep_view()] + next) =~= done.push(
                                copy.deep_view(),
                            ) + next);
                        }
                        below = Some(hash);
                        h = h + 1;
                    } else {
                        proof {
                            assert(done + seq![copy.deep_view()] =~= done.push(copy.deep_view()));
                        }
                        more = false;
                    }
                }
            },
            None => {
                assert(done + Seq::<BlockV>::empty() =~= done);
                more = false;
            },
        }
    }
    out
}

/// The block whose height is right below `height`.
pub open spec fn block_under(blocks: Seq<BlockV>, height: u64) -> Option<BlockV>
    decreases blocks.len(),
{
    if blocks.len() == 0 {
        None
    } else if state::after(blocks[0].height) == height {
        Some(blocks[0])
    } else {
        block_under(blocks.skip(1), height)
    }
}

/// The block whose height is right below `height`.
fn find_under<'a>(blocks: &'a Vec<ChainBlock>, height: u64) -> (r: Option<&'a ChainBlock>)
    ensures
        match r {
            Some(b) => block_under(blocks.deep_view(), height) == Some(b.deep_view()),
            None => block_under(blocks.deep_view(), height) is None,
        },
{
    let ghost all = blocks.deep_view();
    let mut i: usize = 0;
    assert(all.skip(0) =~= all);
    while i < blocks.len()
        invariant
            i <= blocks.len(),
            all == blocks.deep_view(),
            block_under(all, height) == block_under(all.skip(i as int), height),
        decreases blocks.len() - i,
    {
        assert(all.skip(i as int)[0] == blocks@[i as int].deep_view());
        if next_after(blocks[i].height) == height {
            return Some(&blocks[i]);
        }
        assert(all.skip(i as int).skip(1) =~= all.skip(i + 1));
        i = i + 1;
    }
    None
}

/// Does some block apply that proposal?
pub open spec fn applies(blocks: Seq<BlockV>, id: u64) -> bool {
    exists|i: int|
        0 <= i < blocks.len() && signers::consumed_by((#[trigger] blocks[i]).change) == Some(id)
}

/// Does some block apply that proposal?
fn any_applies(blocks: &Vec<ChainBlock>, id: u64) -> (r: bool)
    ensures
        r == applies(blocks.deep_view(), id),
{
    let ghost all = blocks.deep_view();
    let mut i: usize = 0;
    while i < blocks.len()
        invariant
            i <= blocks.len(),
            all == blocks.deep_view(),
            forall|k: int|
                0 <= k < i ==> signers::consumed_by((#[trigger] all[k]).change) != Some(id),
        decreases blocks.len() - i,
    {
        assert(all[i as int] == blocks@[i as int].deep_view());
        match &blocks[i].change {
            ChainChange::Applied { proposal_id, .. } => {
                if *proposal_id == id {
                    return true;
                }
            },
            _ => {},
        }
        i = i + 1;
    }
    false
}

/// The ids whose card is open, in order.
pub open spec fn open_among(cards: Seq<(u64, RecordV)>, ids: Seq<u64>) -> Seq<u64>
    decreases ids.len(),
{
    if ids.len() == 0 {
        Seq::empty()
    } else {
        let rest = open_among(cards, ids.drop_last());
        match table::get(cards, ids.last()) {
            Some(p) if p.state == ProposalState::Proposed => rest.push(ids.last()),
            _ => rest,
        }
    }
}

/// The ids whose card is open, in order.
fn find_open_among(cards: &Table<ProposalRecord>, ids: &Vec<u64>) -> (r: Vec<u64>)
    ensures
        r@ == open_among(cards.deep_view(), ids@),
{
    let mut out: Vec<u64> = Vec::new();
    let mut i: usize = 0;
    assert(ids@.take(0) =~= Seq::empty());
    while i < ids.len()
        invariant
            i <= ids.len(),
            out@ == open_among(cards.deep_view(), ids@.take(i as int)),
        decreases ids.len() - i,
    {
        proof {
            assert(ids@.take(i + 1).drop_last() =~= ids@.take(i as int));
            assert(ids@.take(i + 1).last() == ids@[i as int]);
        }
        match cards.get(ids[i]) {
            Some(p) => {
                if p.state == ProposalState::Proposed {
                    out.push(ids[i]);
                }
            },
            None => {},
        }
        i = i + 1;
    }
    assert(ids@.take(i as int) =~= ids@);
    out
}

/// Does a served summary of `len` bytes fit one frame?
pub fn served_blob_fits(len: usize, ceiling: usize) -> (r: bool)
    ensures
        r == (len <= (if ceiling >= ENVELOPE_RESERVE {
            ceiling - ENVELOPE_RESERVE
        } else {
            0
        })),
{
    let cap: usize = if ceiling >= ENVELOPE_RESERVE {
        ceiling - ENVELOPE_RESERVE
    } else {
        0
    };
    len <= cap
}

impl StateV {
    /// The samples of the own chain, from its top back to its anchor.
    pub open spec fn known(self) -> Seq<HeightHashV> {
        if self.blocks.len() == 0 {
            Seq::empty()
        } else {
            samples(
                self.rid(),
                self.blocks,
                self.blocks.last().height,
                0,
                KNOWN_HEADS_MAX as nat,
            )
        }
    }

    /// The blocks from that height on asked for, unless they already are.
    pub open spec fn requesting(self, from: u64) -> StateV {
        if self.head is None || self.catchup_from == Some(from) {
            self
        } else {
            (StateV { catchup_from: Some(from), ..self }).recording(
                WireV::ChainRequest { from_height: from, known: self.known() },
            )
        }
    }

    /// From where a request is to be served: above the highest block that
    /// both hold, else from where it asks.
    pub open spec fn serve_from(self, from: u64, known: Seq<HeightHashV>) -> u64 {
        match above_known(self.rid(), self.blocks, known) {
            Some(h) => h,
            None => from,
        }
    }

    /// The events that carry those blocks.
    pub open spec fn committed_each(self, blocks: Seq<BlockV>) -> Seq<WireV> {
        Seq::new(blocks.len(), |i: int| WireV::Committed { block: blocks[i] })
    }

    /// What a catch-up request is answered with: every block from that height
    /// on. A request from below the anchor gets the summary first, where it
    /// fits a frame.
    pub open spec fn served_from(self, from: u64, blob_fits: bool) -> Seq<WireV> {
        let blocks = sealing::blocks_from(self.blocks, from);
        let head: Seq<WireV> = if blocks.len() > 0 && self.checkpoint_blob is Some && from
            < self.blocks[0].height && blob_fits {
            seq![WireV::CheckpointServed { blob: self.checkpoint_blob->0 }]
        } else {
            Seq::empty()
        };
        head + self.committed_each(blocks)
    }

    /// The smallest prefix that verifies by itself: the anchor block, with the
    /// summary that roots it.
    pub open spec fn bootstrap(self, blob_fits: bool) -> Seq<WireV> {
        if self.blocks.len() == 0 {
            Seq::empty()
        } else if self.checkpoint_blob is Some && blob_fits {
            seq![
                WireV::CheckpointServed { blob: self.checkpoint_blob->0 },
                WireV::Committed { block: self.blocks[0] },
            ]
        } else {
            seq![WireV::Committed { block: self.blocks[0] }]
        }
    }

    /// A block that fits applied, with what it brings.
    pub open spec fn next_applied(self, block: BlockV) -> StateV {
        if self.accepts(block) {
            self.appending(block).after_applied(block).caught_up(block.height)
        } else {
            self.appending(block)
        }
    }

    /// The held blocks at or below the head dropped.
    pub open spec fn trimmed(self) -> StateV {
        StateV { pending_blocks: table::above(self.pending_blocks, self.height()), ..self }
    }

    /// The held blocks applied while the next height is among them. They wait
    /// while votes have to be moved first.
    pub open spec fn draining(self) -> StateV
        decreases self.pending_blocks.len(),
    {
        if self.votes_wait {
            StateV { drain_waits: true, ..self }
        } else {
            match self.target() {
                None => self.trimmed(),
                Some(next) => match table::get(self.pending_blocks, next) {
                    None => self.trimmed(),
                    Some(block) => {
                        let taken = StateV {
                            pending_blocks: table::del(self.pending_blocks, next),
                            ..self
                        };
                        proof {
                            lemma_removal_shrinks(self.pending_blocks, next);
                            lemma_next_applied_sync(taken, block);
                        }
                        if taken.accepts(block) {
                            taken.next_applied(block).draining()
                        } else {
                            taken.next_applied(block).trimmed()
                        }
                    },
                },
            }
        }
    }

    /// The held blocks applied and the chain handed to the storage, once for all
    /// of them.
    pub open spec fn drained(self) -> StateV {
        let done = (StateV { drain_waits: false, ..self }).draining();
        if done.drain_waits {
            done
        } else {
            done.persisting()
        }
    }

    /// A block of another branch kept.
    pub open spec fn fork_kept(self, block: BlockV) -> StateV {
        StateV {
            fork_candidates: capped(table::put(self.fork_candidates, block.height, block)),
            ..self
        }
    }

    /// The candidates given up.
    pub open spec fn forks_cleared(self) -> StateV {
        StateV { fork_candidates: Seq::empty(), ..self }
    }

    /// A decided proposal back to the vote. A card that was only made from the
    /// displaced block has no vote to return to, so it goes.
    pub open spec fn reopened(self, id: u64) -> StateV {
        match table::get(self.proposals, id) {
            None => self,
            Some(p) => StateV {
                proposals: if p.by.len() == 0 {
                    table::del(self.proposals, id)
                } else {
                    table::put(
                        self.proposals,
                        id,
                        RecordV { state: ProposalState::Proposed, ..p },
                    )
                },
                ..self
            },
        }
    }

    /// What the dropped blocks decided and the kept ones do not, back to the
    /// vote.
    pub open spec fn reopened_each(self, dropped: Seq<BlockV>, kept: Seq<BlockV>) -> StateV
        decreases dropped.len(),
    {
        if dropped.len() == 0 {
            self
        } else {
            let rest = self.reopened_each(dropped.drop_last(), kept);
            match signers::consumed_by(dropped.last().change) {
                Some(id) => if applies(kept, id) {
                    rest
                } else {
                    rest.reopened(id)
                },
                None => rest,
            }
        }
    }

    /// What several applied blocks bring, in order.
    pub open spec fn after_each(self, blocks: Seq<BlockV>) -> StateV
        decreases blocks.len(),
    {
        if blocks.len() == 0 {
            self
        } else {
            self.after_each(blocks.drop_last()).after_applied(blocks.last())
        }
    }

    /// Several approvals signed, in order.
    pub open spec fn signing_each(self, ids: Seq<u64>) -> StateV
        decreases ids.len(),
    {
        if ids.len() == 0 {
            self
        } else {
            self.signing_each(ids.drop_last()).signing(ids.last())
        }
    }

    /// The own decisions on what is open signed anew; every signature
    /// collected before is for heights that are gone. This waits while it is
    /// not known which wiki patches are left behind.
    pub open spec fn resigned_all(self) -> StateV {
        if self.wiki_asked > 0 {
            StateV { resign_waits: true, ..self }
        } else {
            let cleared = StateV {
                pending_sigs: Seq::empty(),
                votes_wait: false,
                resign_waits: false,
                ..self
            };
            cleared.signing_each(open_among(cleared.proposals, cleared.own_approvals))
        }
    }

    /// What waited for the host to say which wiki patches are left behind done:
    /// the votes moved, then the held blocks applied.
    pub open spec fn resuming(self) -> StateV {
        let moved = if self.resign_waits {
            self.resigned_all()
        } else if self.votes_wait {
            self.rebasing()
        } else {
            self
        };
        if moved.drain_waits {
            moved.drained()
        } else {
            moved
        }
    }

    /// The wiki patches that a moved base left behind retired, as the host found
    /// them. Once it has answered whatever it was asked, what waited goes on.
    pub open spec fn patches_settled(self, ids: Seq<u64>) -> StateV {
        let told = StateV {
            wiki_asked: lower(self.wiki_asked),
            ..self.retiring_each(ids)
        };
        if told.wiki_asked > 0 {
            told
        } else {
            told.resuming()
        }
    }

    /// The holder moved onto the other branch, from `fork` on.
    pub open spec fn moved_onto(self, fork: u64, suffix: Seq<BlockV>) -> StateV {
        let dropped = sealing::blocks_from(self.blocks, fork);
        let adopted = self.adopting(blocks_below(self.blocks, fork) + suffix);
        let signed = adopted.reopened_each(dropped, suffix).after_each(suffix).resigned_all();
        let clean = (StateV {
            fork_candidates: Seq::empty(),
            diverged: Seq::empty(),
            ..signed
        }).persisting().emitting(EventV::SessionChanged);
        match clean.head {
            Some(h) => (StateV { catchup_from: None, ..clean }).requesting(state::after(h.height)),
            None => clean,
        }
    }

    /// The other branch tried. Where its candidates link into the chain, the
    /// two blocks at the fork decide: the smaller hash wins. A winning branch
    /// is adopted only if the whole of it verifies. Where nothing links yet,
    /// the heights below are asked for.
    pub open spec fn reorganizing(self) -> StateV {
        if self.blocks.len() == 0 {
            self
        } else {
            let anchor = self.blocks[0].height;
            let lowest_above = state::after(anchor);
            match fork_height(self.rid(), self.blocks, self.fork_candidates) {
                None => if self.fork_candidates.len() > 0 && self.fork_candidates[0].0
                    > lowest_above {
                    self.requesting(
                        state::larger((self.fork_candidates[0].0 - 1) as u64, lowest_above),
                    )
                } else {
                    self
                },
                Some(fork) => {
                    let suffix = linked_run(self.rid(), self.fork_candidates, fork, None);
                    match block_at(self.blocks, fork) {
                        None => self,
                        Some(ours) => if suffix.len() == 0 || !text::before(
                            signers::block_hash_of(self.rid(), suffix[0]),
                            signers::block_hash_of(self.rid(), ours),
                        ) {
                            self.forks_cleared()
                        } else if self.walked_here(
                            blocks_below(self.blocks, fork) + suffix,
                        ) is Err {
                            self.forks_cleared()
                        } else {
                            self.moved_onto(fork, suffix)
                        },
                    }
                },
            }
        }
    }

    /// A peer on another branch: noted, its block kept and the branch tried.
    pub open spec fn other_branch(self, from: Seq<char>, since_height: u64, block: BlockV) -> StateV {
        self.diverging(from, since_height).fork_kept(block).reorganizing()
    }

    /// Does the block build on the own block right below it?
    pub open spec fn shares_prev(self, block: BlockV) -> bool {
        match block_under(self.blocks, block.height) {
            Some(below) => signers::block_hash_of(self.rid(), below) == block.prev,
            None => true,
        }
    }

    /// Does the block carry the threshold of the own roster?
    pub open spec fn well_signed(self, block: BlockV) -> bool {
        match self.head {
            Some(h) => match signers::backers_of(self.rid(), h.identities, block) {
                Ok(names) => names.len() >= h.rule_m,
                Err(e) => false,
            },
            None => false,
        }
    }

    /// The tip replaced by a block that wins it, if the chain still verifies.
    pub open spec fn tip_replaced(self, block: BlockV) -> StateV {
        let swapped = self.blocks.drop_last().push(block);
        match walk::verified_head(self.walked_here(swapped)) {
            Err(e) => self,
            Ok(head) => {
                let applied = (StateV {
                    blocks: swapped,
                    head: Some(head),
                    head_moved_at: self.now,
                    ..self
                }).chain_applied();
                let back = match signers::consumed_by(self.blocks.last().change) {
                    Some(id) => applied.reopened(id),
                    None => applied,
                };
                back.after_applied(block).persisting()
            },
        }
    }

    /// A block at a height that is filled. The same block is no contest. One
    /// on another branch is kept for a re-base. At the tip the smaller hash
    /// wins, if the block carries the threshold.
    pub open spec fn contested(self, from: Seq<char>, block: BlockV) -> StateV {
        match block_at(self.blocks, block.height) {
            None => self,
            Some(existing) => if existing == block {
                self.converging(from)
            } else if !self.shares_prev(block) {
                self.other_branch(from, lower(block.height), block)
            } else if self.blocks.last().height != block.height {
                self.other_branch(from, block.height, block)
            } else if text::before(
                signers::block_hash_of(self.rid(), block),
                signers::block_hash_of(self.rid(), existing),
            ) && self.well_signed(block) {
                self.tip_replaced(block)
            } else {
                self
            },
        }
    }

    /// Is a block past the head near enough to be held: within the window
    /// above the head, or above a waiting summary?
    pub open spec fn near(self, height: u64) -> bool {
        ||| height <= self.height() + CATCHUP_BUFFER_WINDOW
        ||| (self.pending_served_blob is Some && height > self.pending_served_blob->0.upto && height
            <= self.pending_served_blob->0.upto + CATCHUP_BUFFER_WINDOW)
    }

    /// A block for a holder without a chain. Only the founding of its own
    /// republic starts one; anything else is held.
    pub open spec fn first_block(self, block: BlockV) -> StateV {
        if block.height == 0 {
            let foreign = match block.change {
                ChangeV::Genesis { republic_id, .. } => self.rid().len() > 0 && republic_id
                    != self.rid(),
                _ => false,
            };
            if foreign {
                self
            } else {
                let adopted = self.adopting(seq![block]);
                if adopted.head is Some {
                    adopted.drained()
                } else {
                    adopted
                }
            }
        } else {
            (StateV {
                pending_blocks: capped(table::put(self.pending_blocks, block.height, block)),
                ..self
            }).re_anchoring()
        }
    }

    /// A block ahead of the chain held, and the missing ones asked for.
    pub open spec fn ahead(self, block: BlockV) -> StateV {
        if !self.near(block.height) {
            self
        } else {
            (StateV {
                pending_blocks: capped(
                    table::put(
                        table::above(self.pending_blocks, self.height()),
                        block.height,
                        block,
                    ),
                ),
                ..self
            }).re_anchoring().requesting((self.height() + 1) as u64)
        }
    }

    /// A block heard from a peer.
    pub open spec fn block_heard(self, from: Seq<char>, block: BlockV) -> StateV {
        let noted = self.peer_noted(from, block.height);
        match noted.head {
            None => noted.first_block(block),
            Some(h) => if block.height == h.height + 1 {
                if block.prev != h.hash {
                    noted.other_branch(from, h.height, block)
                } else if noted.accepts(block) {
                    noted.next_applied(block).converging(from).drained()
                } else {
                    noted.next_applied(block)
                }
            } else if block.height <= h.height {
                noted.contested(from, block)
            } else {
                noted.ahead(block)
            },
        }
    }
}

/// The number before `n`; none before zero.
pub open spec fn lower(n: u64) -> u64 {
    if n > 0 {
        (n - 1) as u64
    } else {
        0
    }
}

/// Removing a key that is there makes a table shorter.
pub proof fn lemma_removal_shrinks<V>(rows: Seq<(u64, V)>, key: u64)
    ensures
        table::del(rows, key).len() <= rows.len(),
        table::has(rows, key) ==> table::del(rows, key).len() < rows.len(),
    decreases rows.len(),
{
    if rows.len() > 0 {
        lemma_removal_shrinks(rows.drop_last(), key);
    }
}

/// Applying a block leaves the held blocks alone.
pub proof fn lemma_next_applied_sync(s: StateV, block: BlockV)
    ensures
        s.next_applied(block).pending_blocks == s.pending_blocks,
{
    if s.accepts(block) {
        sealing::lemma_appended_head(s, block);
        sealing::lemma_after_applied_rises(s.appending(block), block);
    }
}

impl State {
    /// The samples of the own chain that a catch-up request names, from its
    /// top back to its anchor, ever further apart.
    pub fn known_heads(&self) -> (r: Vec<HeightHash>)
        ensures
            r.deep_view() == self.deep_view().known(),
    {
        let mut out: Vec<HeightHash> = Vec::new();
        assert(out.deep_view() =~= Seq::empty());
        if self.blocks.len() == 0 {
            return out;
        }
        let rid = self.republic_id();
        let ghost blocks = self.blocks.deep_view();
        let top: u64 = self.blocks[self.blocks.len() - 1].height;
        assert(blocks.last() == self.blocks@[self.blocks@.len() - 1].deep_view());
        let mut back: u64 = 0;
        let mut left: usize = KNOWN_HEADS_MAX;
        let mut more = true;
        let ghost whole = samples(rid@, blocks, top, 0, KNOWN_HEADS_MAX as nat);
        assert(out.deep_view() + whole =~= whole);
        while more && left > 0 && back <= top
            invariant
                blocks == self.blocks.deep_view(),
                more ==> whole == out.deep_view() + samples(rid@, blocks, top, back, left as nat),
                !more ==> whole == out.deep_view(),
            decreases left + (if more { 1int } else { 0int }),
        {
            let ghost done = out.deep_view();
            match find_block(&self.blocks, top - back) {
                Some(b) => {
                    let sample = HeightHash {
                        height: top - back,
                        hash: block_hash(rid.as_str(), b),
                    };
                    out.push(sample);
                    let next: u64 = if back == 0 {
                        1
                    } else if back <= u64::MAX / 2 {
                        back * 2
                    } else {
                        u64::MAX
                    };
                    proof {
                        assert(next == further_back(back));
                        let rest = samples(rid@, blocks, top, next, (left - 1) as nat);
                        assert(out.deep_view() =~= done.push(sample.deep_view()));
                        assert(done + (seq![sample.deep_view()] + rest) =~= done.push(
                            sample.deep_view(),
                        ) + rest);
                    }
                    back = next;
                    left = left - 1;
                },
                None => {
                    assert(done + Seq::<HeightHashV>::empty() =~= done);
                    more = false;
                },
            }
        }
        proof {
            if more {
                assert(out.deep_view() + Seq::<HeightHashV>::empty() =~= out.deep_view());
            }
        }
        out
    }

    /// Asks for every block from that height on, unless that is asked already.
    pub fn request_catchup(&mut self, from: u64)
        ensures
            final(self).deep_view() == old(self).deep_view().requesting(from),
    {
        let asked = match self.catchup_from {
            Some(f) => f == from,
            None => false,
        };
        if self.head.is_none() || asked {
            return;
        }
        let known = self.known_heads();
        self.catchup_from = Some(from);
        self.record(WorkspaceEvent::ChainRequest { from_height: from, known });
    }

    /// From where a request is to be served: above the highest block that
    /// both hold, so that a peer on another branch is served from the fork.
    pub fn serve_from_for(&self, from_height: u64, known: &Vec<HeightHash>) -> (r: u64)
        ensures
            r == self.deep_view().serve_from(from_height, known.deep_view()),
    {
        let rid = self.republic_id();
        let ghost all = known.deep_view();
        let ghost blocks = self.blocks.deep_view();
        let mut top: Option<u64> = None;
        let mut i: usize = 0;
        assert(all.take(0) =~= Seq::empty());
        while i < known.len()
            invariant
                i <= known.len(),
                all == known.deep_view(),
                blocks == self.blocks.deep_view(),
                top == above_known(rid@, blocks, all.take(i as int)),
            decreases known.len() - i,
        {
            proof {
                assert(all.take(i + 1).drop_last() =~= all.take(i as int));
                assert(all.take(i + 1).last() == known@[i as int].deep_view());
            }
            if knows_sample(rid.as_str(), &self.blocks, &known[i]) {
                let above: u64 = next_after(known[i].height);
                let bigger = match top {
                    Some(t) => t < above,
                    None => true,
                };
                if bigger {
                    top = Some(above);
                }
            }
            i = i + 1;
        }
        assert(all.take(i as int) =~= all);
        match top {
            Some(h) => h,
            None => from_height,
        }
    }

    /// Answers a catch-up request from the own chain, whoever sealed its
    /// blocks. `blob_fits` says whether the summary fits one frame: one that
    /// does not would stop every later write.
    pub fn serve_chain_from(&mut self, from: u64, blob_fits: bool)
        ensures
            final(self).deep_view() == old(self).deep_view().recording_each(
                old(self).deep_view().served_from(from, blob_fits),
            ),
    {
        let ghost s = self.deep_view();
        let blocks = keep_from(&self.blocks, from);
        let ghost all = blocks.deep_view();
        let mut bodies: Vec<WorkspaceEvent> = Vec::new();
        assert(bodies.deep_view() =~= Seq::empty());
        if blocks.len() > 0 && self.blocks.len() > 0 {
            assert(s.blocks[0] == self.blocks@[0].deep_view());
            match &self.checkpoint_blob {
                Some(blob) => {
                    if from < self.blocks[0].height && blob_fits {
                        let served = WorkspaceEvent::CheckpointServed { blob: blob.clone() };
                        bodies.push(served);
                        assert(bodies.deep_view() =~= seq![served.deep_view()]);
                    }
                },
                None => {},
            }
        }
        proof {
            if self.blocks.len() == 0 {
                assert(s.blocks =~= Seq::empty());
            }
        }
        let ghost front = bodies.deep_view();
        let ghost told = s.committed_each(all);
        let mut i: usize = 0;
        assert(front + told.take(0) =~= front);
        while i < blocks.len()
            invariant
                i <= blocks.len(),
                all == blocks.deep_view(),
                told == s.committed_each(all),
                bodies.deep_view() == front + told.take(i as int),
            decreases blocks.len() - i,
        {
            let ghost done = bodies.deep_view();
            let body = WorkspaceEvent::Committed { block: blocks[i].clone() };
            bodies.push(body);
            proof {
                assert(all[i as int] == blocks@[i as int].deep_view());
                assert(body.deep_view() == told[i as int]);
                assert(bodies.deep_view() =~= done.push(body.deep_view()));
                assert(done.push(body.deep_view()) =~= front + told.take(i + 1));
            }
            i = i + 1;
        }
        assert(told.take(i as int) =~= told);
        self.record_each(&bodies);
    }

    /// The smallest prefix that verifies by itself: what a rejoining member
    /// needs to start from. Everything above it comes by catching up.
    pub fn anchor_bootstrap(&self, blob_fits: bool) -> (r: Vec<WorkspaceEvent>)
        ensures
            r.deep_view() == self.deep_view().bootstrap(blob_fits),
    {
        let mut out: Vec<WorkspaceEvent> = Vec::new();
        assert(out.deep_view() =~= Seq::empty());
        if self.blocks.len() == 0 {
            return out;
        }
        assert(self.deep_view().blocks[0] == self.blocks@[0].deep_view());
        let block = WorkspaceEvent::Committed { block: self.blocks[0].clone() };
        match &self.checkpoint_blob {
            Some(blob) => {
                if blob_fits {
                    let served = WorkspaceEvent::CheckpointServed { blob: blob.clone() };
                    out.push(served);
                    out.push(block);
                    assert(out.deep_view() =~= seq![served.deep_view(), block.deep_view()]);
                    return out;
                }
            },
            None => {},
        }
        out.push(block);
        assert(out.deep_view() =~= seq![block.deep_view()]);
        out
    }

    /// Sends the prefix that a rejoining member starts from: it cannot ask
    /// for anything before it has a chain.
    pub fn serve_chain_anchor(&mut self, blob_fits: bool)
        ensures
            final(self).deep_view() == old(self).deep_view().recording_each(
                old(self).deep_view().bootstrap(blob_fits),
            ),
    {
        let bodies = self.anchor_bootstrap(blob_fits);
        self.record_each(&bodies);
    }

    /// Applies a block that fits, with what it brings. Returns whether it
    /// fitted.
    pub fn apply_next_block(&mut self, block: ChainBlock) -> (r: bool)
        ensures
            final(self).deep_view() == old(self).deep_view().next_applied(block.deep_view()),
            r == old(self).deep_view().accepts(block.deep_view()),
    {
        let copy = block.clone();
        if self.append_committed_block(copy) {
            self.after_block_applied(&block);
            self.settle_catchup(block.height);
            true
        } else {
            false
        }
    }

    /// Drops the held blocks at or below the head.
    fn trim_buffer(&mut self)
        ensures
            final(self).deep_view() == old(self).deep_view().trimmed(),
    {
        let height: u64 = match &self.head {
            Some(h) => h.height,
            None => 0,
        };
        self.pending_blocks.keep_above(height);
    }

    /// Applies the held blocks while the next height is among them, then
    /// drops the ones at or below the head.
    pub fn drain_buffered_blocks(&mut self)
        ensures
            final(self).deep_view() == old(self).deep_view().draining(),
    {
        let ghost start = self.deep_view();
        let mut more = true;
        while more
            invariant
                start == old(self).deep_view(),
                more ==> start.draining() == self.deep_view().draining(),
                !more ==> start.draining() == self.deep_view().trimmed(),
            decreases self.deep_view().pending_blocks.len() + (if more { 1int } else { 0int }),
        {
            let ghost now = self.deep_view();
            if self.votes_wait {
                self.drain_waits = true;
                return;
            }
            more = false;
            match self.target_height() {
                Some(next) => {
                    match self.pending_blocks.get(next) {
                        Some(b) => {
                            let block = b.clone();
                            self.pending_blocks.remove(next);
                            proof {
                                lemma_removal_shrinks(now.pending_blocks, next);
                                lemma_next_applied_sync(self.deep_view(), block.deep_view());
                            }
                            more = self.apply_next_block(block);
                        },
                        None => {},
                    }
                },
                None => {},
            }
        }
        self.trim_buffer();
    }

    /// Applies the held blocks and hands the chain to the storage, once for all
    /// of them.
    fn drain_and_write(&mut self)
        ensures
            final(self).deep_view() == old(self).deep_view().drained(),
    {
        self.drain_waits = false;
        self.drain_buffered_blocks();
        if !self.drain_waits {
            self.persist_chain_now();
        }
    }

    /// Does what waited for the host to say which wiki patches are left behind.
    fn resume(&mut self)
        ensures
            final(self).deep_view() == old(self).deep_view().resuming(),
    {
        if self.resign_waits {
            self.resign_own();
        } else if self.votes_wait {
            self.rebase_pending_approvals();
        }
        if self.drain_waits {
            self.drain_and_write();
        }
    }

    /// Hears which of the open wiki patches a moved base left behind: retires
    /// them, and once nothing is left to be answered moves the votes that waited.
    pub fn wiki_superseded(&mut self, ids: &Vec<u64>)
        ensures
            final(self).deep_view() == old(self).deep_view().patches_settled(ids@),
    {
        self.retire_patches(ids);
        self.wiki_asked = if self.wiki_asked > 0 {
            self.wiki_asked - 1
        } else {
            0
        };
        proof {
            patches::lemma_retiring_asks_nothing(old(self).deep_view(), ids@);
        }
        if self.wiki_asked == 0 {
            self.resume();
        }
    }

    /// Keeps a block of another branch.
    fn stash_fork_candidate(&mut self, block: ChainBlock)
        ensures
            final(self).deep_view() == old(self).deep_view().fork_kept(block.deep_view()),
    {
        let height: u64 = block.height;
        self.fork_candidates.insert(height, block);
        cap_rows(&mut self.fork_candidates);
    }

    /// Gives the candidates up.
    fn clear_forks(&mut self)
        ensures
            final(self).deep_view() == old(self).deep_view().forks_cleared(),
    {
        self.fork_candidates = Table::new();
    }

    /// Takes a decided proposal back to the vote.
    fn reopen_card(&mut self, id: u64)
        ensures
            final(self).deep_view() == old(self).deep_view().reopened(id),
    {
        match self.proposals.get(id) {
            None => {},
            Some(p) => {
                if p.by.as_str().is_empty() {
                    self.proposals.remove(id);
                } else {
                    let mut card = p.clone();
                    card.state = ProposalState::Proposed;
                    self.proposals.insert(id, card);
                }
            },
        }
    }

    /// Takes what the dropped blocks decided and the kept ones do not back to
    /// the vote.
    fn reopen_dropped(&mut self, dropped: &Vec<ChainBlock>, kept: &Vec<ChainBlock>)
        ensures
            final(self).deep_view() == old(self).deep_view().reopened_each(
                dropped.deep_view(),
                kept.deep_view(),
            ),
    {
        let ghost start = self.deep_view();
        let ghost all = dropped.deep_view();
        let mut i: usize = 0;
        assert(all.take(0) =~= Seq::empty());
        while i < dropped.len()
            invariant
                i <= dropped.len(),
                all == dropped.deep_view(),
                start == old(self).deep_view(),
                self.deep_view() == start.reopened_each(all.take(i as int), kept.deep_view()),
            decreases dropped.len() - i,
        {
            proof {
                assert(all.take(i + 1).drop_last() =~= all.take(i as int));
                assert(all.take(i + 1).last() == dropped@[i as int].deep_view());
            }
            match &dropped[i].change {
                ChainChange::Applied { proposal_id, .. } => {
                    if !any_applies(kept, *proposal_id) {
                        self.reopen_card(*proposal_id);
                    }
                },
                _ => {},
            }
            i = i + 1;
        }
        assert(all.take(i as int) =~= all);
    }

    /// Does what several applied blocks bring, in order.
    fn after_blocks_applied(&mut self, blocks: &Vec<ChainBlock>)
        ensures
            final(self).deep_view() == old(self).deep_view().after_each(blocks.deep_view()),
    {
        let ghost start = self.deep_view();
        let ghost all = blocks.deep_view();
        let mut i: usize = 0;
        assert(all.take(0) =~= Seq::empty());
        while i < blocks.len()
            invariant
                i <= blocks.len(),
                all == blocks.deep_view(),
                start == old(self).deep_view(),
                self.deep_view() == start.after_each(all.take(i as int)),
            decreases blocks.len() - i,
        {
            proof {
                assert(all.take(i + 1).drop_last() =~= all.take(i as int));
                assert(all.take(i + 1).last() == blocks@[i as int].deep_view());
            }
            self.after_block_applied(&blocks[i]);
            i = i + 1;
        }
        assert(all.take(i as int) =~= all);
    }

    /// Signs the own decisions on what is open anew.
    fn resign_own(&mut self)
        ensures
            final(self).deep_view() == old(self).deep_view().resigned_all(),
    {
        if self.wiki_asked > 0 {
            self.resign_waits = true;
            return;
        }
        self.pending_sigs = Table::new();
        self.votes_wait = false;
        self.resign_waits = false;
        let ghost start = self.deep_view();
        let ids = find_open_among(&self.proposals, &self.own_approvals);
        proof {
            crate::fold::lemma_ids_view(self.own_approvals);
        }
        let mut i: usize = 0;
        assert(ids@.take(0) =~= Seq::empty());
        while i < ids.len()
            invariant
                i <= ids.len(),
                self.deep_view() == start.signing_each(ids@.take(i as int)),
            decreases ids.len() - i,
        {
            proof {
                assert(ids@.take(i + 1).drop_last() =~= ids@.take(i as int));
                assert(ids@.take(i + 1).last() == ids@[i as int]);
            }
            self.chain_sign_and_gossip_approval(ids[i]);
            i = i + 1;
        }
        assert(ids@.take(i as int) =~= ids@);
    }

    /// Moves the holder onto the other branch, from `fork` on.
    fn move_onto(&mut self, fork: u64, candidate: Vec<ChainBlock>, suffix: &Vec<ChainBlock>)
        requires
            candidate.deep_view() == blocks_below(old(self).deep_view().blocks, fork)
                + suffix.deep_view(),
        ensures
            final(self).deep_view() == old(self).deep_view().moved_onto(fork, suffix.deep_view()),
    {
        let dropped = keep_from(&self.blocks, fork);
        self.adopt_chain(candidate);
        self.reopen_dropped(&dropped, suffix);
        self.after_blocks_applied(suffix);
        self.resign_own();
        self.fork_candidates = Table::new();
        self.diverged = Vec::new();
        assert(self.diverged.deep_view() =~= Seq::empty());
        self.persist_chain_now();
        self.emit(Event::SessionChanged);
        let above: u64 = match &self.head {
            Some(h) => next_after(h.height),
            None => {
                return;
            },
        };
        self.catchup_from = None;
        self.request_catchup(above);
    }

    /// Tries the other branch. The two blocks at the fork decide, a branch
    /// that does not verify as a whole is never adopted, and nothing below
    /// the anchor is ever touched.
    pub fn try_reorg(&mut self)
        ensures
            final(self).deep_view() == old(self).deep_view().reorganizing(),
    {
        let ghost s = self.deep_view();
        if self.blocks.len() == 0 {
            return;
        }
        assert(s.blocks[0] == self.blocks@[0].deep_view());
        let rid = self.republic_id();
        let lowest_above: u64 = next_after(self.blocks[0].height);
        let fork: u64 = match find_fork(rid.as_str(), &self.blocks, &self.fork_candidates) {
            Some(f) => f,
            None => {
                let candidates = self.fork_candidates.rows();
                if candidates.len() > 0 {
                    assert(s.fork_candidates[0] == candidates@[0].deep_view());
                    let lowest: u64 = candidates[0].key;
                    if lowest > lowest_above {
                        let from: u64 = if lowest - 1 >= lowest_above {
                            lowest - 1
                        } else {
                            lowest_above
                        };
                        self.request_catchup(from);
                    }
                }
                return;
            },
        };
        let suffix = collect_linked(rid.as_str(), &self.fork_candidates, fork);
        let mine = match find_block(&self.blocks, fork) {
            Some(b) => block_hash(rid.as_str(), b),
            None => {
                return;
            },
        };
        if suffix.len() == 0 {
            self.clear_forks();
            return;
        }
        assert(suffix.deep_view()[0] == suffix@[0].deep_view());
        let theirs = block_hash(rid.as_str(), &suffix[0]);
        if !text_before(theirs.as_str(), mine.as_str()) {
            self.clear_forks();
            return;
        }
        let mut candidate = keep_below(&self.blocks, fork);
        let ghost below = candidate.deep_view();
        let ghost all = suffix.deep_view();
        let mut i: usize = 0;
        assert(below + all.take(0) =~= below);
        while i < suffix.len()
            invariant
                i <= suffix.len(),
                all == suffix.deep_view(),
                candidate.deep_view() == below + all.take(i as int),
            decreases suffix.len() - i,
        {
            let ghost done = candidate.deep_view();
            let copy = suffix[i].clone();
            candidate.push(copy);
            proof {
                assert(all[i as int] == copy.deep_view());
                assert(candidate.deep_view() =~= done.push(copy.deep_view()));
                assert(done.push(copy.deep_view()) =~= below + all.take(i + 1));
            }
            i = i + 1;
        }
        assert(all.take(i as int) =~= all);
        if self.walk_own(candidate.as_slice()).is_err() {
            self.clear_forks();
            return;
        }
        self.move_onto(fork, candidate, &suffix);
    }

    /// Notes a peer on another branch, keeps its block and tries the branch.
    fn meet_other_branch(&mut self, from: &str, since_height: u64, block: ChainBlock)
        ensures
            final(self).deep_view() == old(self).deep_view().other_branch(
                from@,
                since_height,
                block.deep_view(),
            ),
    {
        self.note_divergence(from, since_height);
        self.stash_fork_candidate(block);
        self.try_reorg();
    }

    /// Does the block build on the own block right below it?
    fn builds_on_own(&self, rid: &str, block: &ChainBlock) -> (r: bool)
        requires
            rid@ == self.deep_view().rid(),
        ensures
            r == self.deep_view().shares_prev(block.deep_view()),
    {
        match find_under(&self.blocks, block.height) {
            Some(below) => {
                let hash = block_hash(rid, below);
                hash == block.prev
            },
            None => true,
        }
    }

    /// Does the block carry the threshold of the own roster?
    fn carries_threshold(&self, rid: &str, block: &ChainBlock) -> (r: bool)
        requires
            rid@ == self.deep_view().rid(),
        ensures
            r == self.deep_view().well_signed(block.deep_view()),
    {
        match &self.head {
            Some(h) => match block_signers(rid, &h.identities, block) {
                Ok(names) => names.len() >= h.rule_m as usize,
                Err(_) => false,
            },
            None => false,
        }
    }

    /// Replaces the tip by a block that wins it, if the chain still verifies.
    fn replace_tip(&mut self, block: ChainBlock)
        requires
            old(self).deep_view().blocks.len() > 0,
        ensures
            final(self).deep_view() == old(self).deep_view().tip_replaced(block.deep_view()),
    {
        let ghost held = self.blocks.deep_view();
        let displaced: Option<u64> = match &self.blocks[self.blocks.len() - 1].change {
            ChainChange::Applied { proposal_id, .. } => Some(*proposal_id),
            _ => None,
        };
        proof {
            assert(held.last() == self.blocks@[self.blocks@.len() - 1].deep_view());
            assert(displaced == signers::consumed_by(held.last().change));
        }
        let mut swapped = self.blocks.clone();
        swapped.pop();
        let ghost front = swapped.deep_view();
        swapped.push(block.clone());
        proof {
            assert(front =~= held.drop_last());
            assert(swapped.deep_view() =~= front.push(block.deep_view()));
        }
        match self.verify_own(swapped.as_slice()) {
            Err(_) => {},
            Ok(head) => {
                self.blocks = swapped;
                self.head = Some(head);
                self.head_moved_at = self.now;
                self.apply_chain_to_state();
                match displaced {
                    Some(id) => {
                        self.reopen_card(id);
                    },
                    None => {},
                }
                self.after_block_applied(&block);
                self.persist_chain_now();
            },
        }
    }

    /// Settles a block at a height that is filled.
    pub fn tie_break(&mut self, from: &str, block: ChainBlock)
        ensures
            final(self).deep_view() == old(self).deep_view().contested(from@, block.deep_view()),
    {
        let ghost s = self.deep_view();
        let rid = self.republic_id();
        let mut same = false;
        let mut wins = false;
        match find_block(&self.blocks, block.height) {
            None => {
                return;
            },
            Some(existing) => {
                if same_value(existing, &block) {
                    same = true;
                } else {
                    let incoming = block_hash(rid.as_str(), &block);
                    let current = block_hash(rid.as_str(), existing);
                    wins = text_before(incoming.as_str(), current.as_str());
                }
            },
        }
        if same {
            self.clear_divergence(from);
            return;
        }
        if !self.builds_on_own(rid.as_str(), &block) {
            let since: u64 = if block.height > 0 {
                block.height - 1
            } else {
                0
            };
            self.meet_other_branch(from, since, block);
            return;
        }
        proof {
            if self.blocks.len() == 0 {
                assert(s.blocks =~= Seq::empty());
            }
            assert(s.blocks.last() == self.blocks@[self.blocks@.len() - 1].deep_view());
        }
        if self.blocks[self.blocks.len() - 1].height != block.height {
            let since: u64 = block.height;
            self.meet_other_branch(from, since, block);
            return;
        }
        if wins && self.carries_threshold(rid.as_str(), &block) {
            self.replace_tip(block);
        }
    }

    /// Takes a block for a holder without a chain.
    fn receive_first_block(&mut self, block: ChainBlock)
        ensures
            final(self).deep_view() == old(self).deep_view().first_block(block.deep_view()),
    {
        if block.height == 0 {
            let own = self.republic_id();
            let foreign = match &block.change {
                ChainChange::Genesis { republic_id, .. } => !own.as_str().is_empty()
                    && !same_text(republic_id.as_str(), own.as_str()),
                _ => false,
            };
            if foreign {
                return;
            }
            let ghost b = block.deep_view();
            let chain: Vec<ChainBlock> = vec![block];
            assert(chain.deep_view() =~= seq![b]);
            self.adopt_chain(chain);
            if self.head.is_some() {
                self.drain_and_write();
            }
        } else {
            let height: u64 = block.height;
            self.pending_blocks.insert(height, block);
            cap_rows(&mut self.pending_blocks);
            self.try_adopt_from_blob();
        }
    }

    /// Is a block past the head near enough to be held?
    fn is_near(&self, height: u64) -> (r: bool)
        ensures
            r == self.deep_view().near(height),
    {
        let head: u64 = match &self.head {
            Some(h) => h.height,
            None => 0,
        };
        if head > u64::MAX - CATCHUP_BUFFER_WINDOW || height <= head + CATCHUP_BUFFER_WINDOW {
            return true;
        }
        match &self.pending_served_blob {
            Some(blob) => height > blob.upto && (blob.upto > u64::MAX - CATCHUP_BUFFER_WINDOW
                || height <= blob.upto + CATCHUP_BUFFER_WINDOW),
            None => false,
        }
    }

    /// Takes a block that a peer sent: extends the chain by it, settles a
    /// contest, or holds it and asks for what is missing.
    pub fn receive_block_from(&mut self, from: &str, block: ChainBlock)
        ensures
            final(self).deep_view() == old(self).deep_view().block_heard(from@, block.deep_view()),
    {
        self.note_peer_height(from, block.height);
        let head: ChainHead = match &self.head {
            Some(h) => h.clone(),
            None => {
                self.receive_first_block(block);
                return;
            },
        };
        if block.height <= head.height {
            self.tie_break(from, block);
        } else if block.height - 1 == head.height {
            if block.prev != head.hash {
                self.meet_other_branch(from, head.height, block);
                return;
            }
            if self.apply_next_block(block) {
                self.clear_divergence(from);
                self.drain_and_write();
            }
        } else {
            if !self.is_near(block.height) {
                return;
            }
            let height: u64 = block.height;
            self.pending_blocks.keep_above(head.height);
            self.pending_blocks.insert(height, block);
            cap_rows(&mut self.pending_blocks);
            self.try_adopt_from_blob();
            self.request_catchup(head.height + 1);
        }
    }

    /// Takes a block whose sender is not known.
    pub fn receive_block(&mut self, block: ChainBlock)
        ensures
            final(self).deep_view() == old(self).deep_view().block_heard(
                Seq::empty(),
                block.deep_view(),
            ),
    {
        let nobody = String::new();
        assert(nobody@ =~= Seq::empty());
        self.receive_block_from(nobody.as_str(), block);
    }
}

} // verus!
