//! What holds of synchronization: contests have one winner, a re-base keeps
//! the anchor, and a request is served from what both hold.

use crate::model::BlockV;
use crate::signers;
use crate::state;
use crate::state::{HeightHashV, StateV};
use crate::sync;
use crate::table;
use crate::text;
use vstd::prelude::*;

verus! {

/// Two different blocks at one height that hash differently have one winner:
/// the holder of the one gives way exactly where the holder of the other does
/// not.
pub proof fn a_contest_has_one_winner(republic_id: Seq<char>, a: BlockV, b: BlockV)
    requires
        signers::block_hash_of(republic_id, a) != signers::block_hash_of(republic_id, b),
    ensures
        text::before(
            signers::block_hash_of(republic_id, a),
            signers::block_hash_of(republic_id, b),
        ) != text::before(
            signers::block_hash_of(republic_id, b),
            signers::block_hash_of(republic_id, a),
        ),
{
    let x = signers::block_hash_of(republic_id, a);
    let y = signers::block_hash_of(republic_id, b);
    text::lemma_before_total(x, y);
    if text::before(x, y) && text::before(y, x) {
        text::lemma_before_transitive(x, y, x);
        text::lemma_before_irreflexive(x);
    }
}

/// The first block is kept where it is below the height.
proof fn lemma_below_keeps_first(blocks: Seq<BlockV>, height: u64)
    requires
        blocks.len() > 0,
        blocks[0].height < height,
    ensures
        sync::blocks_below(blocks, height).len() > 0,
        sync::blocks_below(blocks, height)[0] == blocks[0],
    decreases blocks.len(),
{
    let front = blocks.drop_last();
    if front.len() > 0 {
        lemma_below_keeps_first(front, height);
    } else {
        assert(sync::blocks_below(front, height) =~= Seq::empty());
    }
}

/// A fork is above the anchor.
proof fn lemma_fork_above_anchor(
    republic_id: Seq<char>,
    blocks: Seq<BlockV>,
    candidates: Seq<(u64, BlockV)>,
)
    requires
        sync::fork_height(republic_id, blocks, candidates) is Some,
    ensures
        blocks.len() > 0,
        sync::fork_height(republic_id, blocks, candidates)->0 > blocks[0].height,
    decreases candidates.len(),
{
    if candidates.len() > 0 && !sync::links(republic_id, blocks, candidates[0].0, candidates[0].1) {
        lemma_fork_above_anchor(republic_id, blocks, candidates.skip(1));
    }
}

/// A re-base never goes below the anchor: the chain that would be adopted
/// starts with the block that this holder's chain starts with.
pub proof fn a_rebase_keeps_the_anchor(s: StateV)
    requires
        sync::fork_height(s.rid(), s.blocks, s.fork_candidates) is Some,
    ensures
        ({
            let fork = sync::fork_height(s.rid(), s.blocks, s.fork_candidates)->0;
            let adopted = sync::blocks_below(s.blocks, fork) + sync::linked_run(
                s.rid(),
                s.fork_candidates,
                fork,
                None,
            );
            adopted.len() > 0 && adopted[0] == s.blocks[0]
        }),
{
    lemma_fork_above_anchor(s.rid(), s.blocks, s.fork_candidates);
    lemma_below_keeps_first(
        s.blocks,
        sync::fork_height(s.rid(), s.blocks, s.fork_candidates)->0,
    );
}

/// A branch that does not verify as a whole is never adopted: the chain stays
/// as it is.
pub proof fn an_unverified_branch_is_never_adopted(s: StateV)
    requires
        s.blocks.len() > 0,
        sync::fork_height(s.rid(), s.blocks, s.fork_candidates) is Some,
        ({
            let fork = sync::fork_height(s.rid(), s.blocks, s.fork_candidates)->0;
            s.walked_here(
                sync::blocks_below(s.blocks, fork) + sync::linked_run(
                    s.rid(),
                    s.fork_candidates,
                    fork,
                    None,
                ),
            ) is Err
        }),
    ensures
        s.reorganizing().blocks == s.blocks,
        s.reorganizing().head == s.head,
        s.reorganizing().proposals == s.proposals,
{
}

/// Where a requester names a block that this holder has, it is served from
/// above that block at least.
pub proof fn a_request_is_served_from_above_what_both_hold(
    s: StateV,
    from: u64,
    known: Seq<HeightHashV>,
    i: int,
)
    requires
        0 <= i < known.len(),
        sync::sample_known(s.rid(), s.blocks, known[i]),
    ensures
        s.serve_from(from, known) >= state::after(known[i].height),
{
    lemma_above_known(s.rid(), s.blocks, known, i);
}

/// One above the highest known sample is above every known sample.
proof fn lemma_above_known(
    republic_id: Seq<char>,
    blocks: Seq<BlockV>,
    known: Seq<HeightHashV>,
    i: int,
)
    requires
        0 <= i < known.len(),
        sync::sample_known(republic_id, blocks, known[i]),
    ensures
        sync::above_known(republic_id, blocks, known) is Some,
        sync::above_known(republic_id, blocks, known)->0 >= state::after(known[i].height),
    decreases known.len(),
{
    let front = known.drop_last();
    if i < front.len() {
        assert(front[i] == known[i]);
        lemma_above_known(republic_id, blocks, front, i);
    }
}

/// A held block is at most so far ahead, and the buffer never grows beyond
/// its cap.
pub proof fn the_buffer_is_bounded(s: StateV, block: BlockV)
    requires
        s.head is Some,
        s.head->0.height < block.height,
    ensures
        !s.near(block.height) ==> s.ahead(block) == s,
        sync::capped(
            table::put(
                table::above(s.pending_blocks, s.height()),
                block.height,
                block,
            ),
        ).len() <= sync::CATCHUP_BUFFER_MAX,
{
}

} // verus!
