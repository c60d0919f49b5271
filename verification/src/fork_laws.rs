//! What holds where two branches meet: what is kept, which of them wins, and
//! what goes back to the vote.

use crate::model::{BlockV, ChangeV};
use crate::signers;
use crate::state::{EffectV, ProposalState, RecordV, StateV, WireV};
use crate::sync;
use crate::table;
use crate::telling_laws;
use crate::text;
use vstd::prelude::*;

verus! {

/// The blocks below a height are those, in order.
pub proof fn lemma_below(blocks: Seq<BlockV>, height: u64)
    ensures
        sync::blocks_below(blocks, height) == blocks.filter(|b: BlockV| b.height < height),
    decreases blocks.len(),
{
    reveal(Seq::filter);
    if blocks.len() > 0 {
        lemma_below(blocks.drop_last(), height);
    }
}

/// Does a candidate fit the chain: above its first block, on the block right
/// below it?
pub open spec fn fits_below(s: StateV, height: u64, candidate: BlockV) -> bool {
    &&& s.blocks.len() > 0
    &&& height > s.blocks[0].height
    &&& exists|i: int|
        0 <= i < s.blocks.len() && (#[trigger] s.blocks[i]).height == height - 1
            && signers::block_hash_of(s.rid(), s.blocks[i]) == candidate.prev
}

/// A candidate links where it fits.
proof fn lemma_links(s: StateV, height: u64, candidate: BlockV)
    requires
        telling_laws::one_height_each(s.blocks),
    ensures
        sync::links(s.rid(), s.blocks, height, candidate) <==> fits_below(s, height, candidate),
{
    if height > 0 {
        let under = (height - 1) as u64;
        if sync::block_at(s.blocks, under) is Some {
            let i = telling_laws::lemma_block_found(s.blocks, under);
        }
        assert forall|i: int|
            0 <= i < s.blocks.len() && (#[trigger] s.blocks[i]).height == under implies sync::block_at(
            s.blocks,
            under,
        ) == Some(s.blocks[i]) by {
            telling_laws::lemma_block_at(s.blocks, i);
        }
    }
}

/// The fork is the lowest height at which a kept block fits the chain.
pub proof fn the_fork_is_where_a_kept_block_first_fits(s: StateV)
    requires
        telling_laws::one_height_each(s.blocks),
        table::keys_ascend(s.fork_candidates),
    ensures
        match sync::fork_height(s.rid(), s.blocks, s.fork_candidates) {
            Some(fork) => {
                &&& exists|i: int|
                    0 <= i < s.fork_candidates.len() && (#[trigger] s.fork_candidates[i]).0 == fork
                        && fits_below(s, fork, s.fork_candidates[i].1)
                &&& forall|i: int|
                    0 <= i < s.fork_candidates.len() && (#[trigger] s.fork_candidates[i]).0 < fork
                        ==> !fits_below(s, s.fork_candidates[i].0, s.fork_candidates[i].1)
            },
            None => forall|i: int|
                0 <= i < s.fork_candidates.len() ==> !fits_below(
                    s,
                    (#[trigger] s.fork_candidates[i]).0,
                    s.fork_candidates[i].1,
                ),
        },
{
    lemma_fork(s, s.fork_candidates);
}

/// The first candidate that fits, among ascending ones.
proof fn lemma_fork(s: StateV, list: Seq<(u64, BlockV)>)
    requires
        telling_laws::one_height_each(s.blocks),
        table::keys_ascend(list),
    ensures
        match sync::fork_height(s.rid(), s.blocks, list) {
            Some(fork) => {
                &&& exists|i: int|
                    0 <= i < list.len() && (#[trigger] list[i]).0 == fork && fits_below(
                        s,
                        fork,
                        list[i].1,
                    )
                &&& forall|i: int|
                    0 <= i < list.len() && (#[trigger] list[i]).0 < fork ==> !fits_below(
                        s,
                        list[i].0,
                        list[i].1,
                    )
            },
            None => forall|i: int|
                0 <= i < list.len() ==> !fits_below(s, (#[trigger] list[i]).0, list[i].1),
        },
    decreases list.len(),
{
    if list.len() > 0 {
        let rest = list.skip(1);
        assert(table::keys_ascend(rest)) by {
            assert forall|i: int, j: int| 0 <= i < j < rest.len() implies (#[trigger] rest[i]).0 < (
            #[trigger] rest[j]).0 by {
                assert(rest[i] == list[i + 1] && rest[j] == list[j + 1]);
            }
        }
        lemma_fork(s, rest);
        lemma_links(s, list[0].0, list[0].1);
        if sync::links(s.rid(), s.blocks, list[0].0, list[0].1) {
            assert(list[0].0 == list[0].0);
            assert forall|i: int|
                0 <= i < list.len() && (#[trigger] list[i]).0 < list[0].0 implies !fits_below(
                s,
                list[i].0,
                list[i].1,
            ) by {
                if i > 0 {
                    assert(list[0].0 < list[i].0);
                }
            }
        } else {
            match sync::fork_height(s.rid(), s.blocks, rest) {
                Some(fork) => {
                    let k = choose|k: int|
                        0 <= k < rest.len() && (#[trigger] rest[k]).0 == fork && fits_below(
                            s,
                            fork,
                            rest[k].1,
                        );
                    assert(list[k + 1] == rest[k]);
                    assert forall|i: int|
                        0 <= i < list.len() && (#[trigger] list[i]).0 < fork implies !fits_below(
                        s,
                        list[i].0,
                        list[i].1,
                    ) by {
                        if i > 0 {
                            assert(rest[i - 1] == list[i]);
                        }
                    }
                },
                None => {
                    assert forall|i: int| 0 <= i < list.len() implies !fits_below(
                        s,
                        (#[trigger] list[i]).0,
                        list[i].1,
                    ) by {
                        if i > 0 {
                            assert(rest[i - 1] == list[i]);
                        }
                    }
                },
            }
        }
    }
}

/// The other branch is the run of kept blocks from the fork on: the one kept
/// for each height, each built on the one before it, as far as they go.
pub proof fn a_branch_is_a_linked_run(
    rid: Seq<char>,
    candidates: Seq<(u64, BlockV)>,
    height: u64,
    below: Option<Seq<char>>,
)
    ensures
        ({
            let run = sync::linked_run(rid, candidates, height, below);
            &&& height + run.len() <= u64::MAX + 1
            &&& forall|i: int|
                0 <= i < run.len() ==> table::get(candidates, (height + i) as u64) == Some(
                    #[trigger] run[i],
                )
            &&& run.len() > 0 && below is Some ==> run[0].prev == below->0
            &&& forall|i: int, j: int|
                0 <= i && j == i + 1 && j < run.len() ==> (#[trigger] run[j]).prev
                    == signers::block_hash_of(rid, #[trigger] run[i])
            &&& height + run.len() <= u64::MAX ==> match table::get(
                candidates,
                (height + run.len()) as u64,
            ) {
                Some(next) => if run.len() > 0 {
                    next.prev != signers::block_hash_of(rid, run.last())
                } else {
                    below is Some && next.prev != below->0
                },
                None => true,
            }
        }),
    decreases u64::MAX - height,
{
    let run = sync::linked_run(rid, candidates, height, below);
    match table::get(candidates, height) {
        Some(c) => if (below is None || c.prev == below->0) && height < u64::MAX {
            let up = (height + 1) as u64;
            let on = Some(signers::block_hash_of(rid, c));
            a_branch_is_a_linked_run(rid, candidates, up, on);
            let rest = sync::linked_run(rid, candidates, up, on);
            assert(run =~= seq![c] + rest);
            assert forall|i: int| 0 <= i < run.len() implies table::get(
                candidates,
                (height + i) as u64,
            ) == Some(#[trigger] run[i]) by {
                if i > 0 {
                    assert(run[i] == rest[i - 1]);
                    assert((height + i) as u64 == (up + (i - 1)) as u64);
                }
            }
            assert forall|i: int, j: int| 0 <= i && j == i + 1 && j < run.len() implies (
            #[trigger] run[j]).prev == signers::block_hash_of(rid, #[trigger] run[i]) by {
                assert(run[j] == rest[j - 1]);
                if i > 0 {
                    assert(run[i] == rest[i - 1]);
                }
            }
            assert((height + run.len()) as u64 == (up + rest.len()) as u64);
            if rest.len() > 0 {
                assert(run.last() == rest.last());
            }
        },
        None => {},
    }
}

/// A branch is moved onto only where its first block hashes lower than the own
/// block at that height and the whole of it verifies above the common part;
/// otherwise the chain, the head and the cards stay, and a branch that lost is
/// given up.
pub proof fn only_a_lower_verified_branch_wins(s: StateV)
    requires
        s.blocks.len() > 0,
    ensures
        ({
            let w = s.reorganizing();
            match sync::fork_height(s.rid(), s.blocks, s.fork_candidates) {
                None => w.blocks == s.blocks && w.head == s.head && w.proposals == s.proposals
                    && w.fork_candidates == s.fork_candidates,
                Some(fork) => {
                    let run = sync::linked_run(s.rid(), s.fork_candidates, fork, None);
                    let whole = s.blocks.filter(|b: BlockV| b.height < fork) + run;
                    let wins = {
                        &&& sync::block_at(s.blocks, fork) is Some
                        &&& run.len() > 0
                        &&& text::before(
                            signers::block_hash_of(s.rid(), run[0]),
                            signers::block_hash_of(s.rid(), sync::block_at(s.blocks, fork)->0),
                        )
                        &&& s.walked_here(whole) is Ok
                    };
                    &&& !wins ==> {
                        &&& w.blocks == s.blocks
                        &&& w.head == s.head
                        &&& w.proposals == s.proposals
                        &&& w.effects == s.effects
                    }
                    &&& !wins && sync::block_at(s.blocks, fork) is Some ==> w.fork_candidates.len()
                        == 0
                    &&& wins ==> w == s.moved_onto(fork, run)
                },
            }
        }),
{
    match sync::fork_height(s.rid(), s.blocks, s.fork_candidates) {
        None => {},
        Some(fork) => {
            lemma_below(s.blocks, fork);
        },
    }
}

/// A block of another branch is kept under its height, beside those that were;
/// where too many are kept the highest go.
pub proof fn a_block_of_another_branch_is_kept(s: StateV, block: BlockV)
    ensures
        ({
            let all = table::put(s.fork_candidates, block.height, block);
            let w = s.fork_kept(block);
            &&& w == StateV { fork_candidates: w.fork_candidates, ..s }
            &&& w.fork_candidates.len() <= 4096
            &&& forall|i: int|
                0 <= i < w.fork_candidates.len() ==> #[trigger] w.fork_candidates[i] == all[i]
            &&& w.fork_candidates.len() == all.len() || w.fork_candidates.len() == 4096
        }),
{
}

/// A block that contests the tip takes its place only where it is built on the
/// same block, hashes lower and carries the threshold; one that does not leaves
/// everything as it is. The same block is no contest.
pub proof fn a_tip_yields_only_to_a_lower_hash(s: StateV, from: Seq<char>, block: BlockV)
    requires
        telling_laws::one_height_each(s.blocks),
        s.blocks.len() > 0,
        s.blocks.last().height == block.height,
        s.shares_prev(block),
        block != s.blocks.last(),
    ensures
        ({
            let lower = text::before(
                signers::block_hash_of(s.rid(), block),
                signers::block_hash_of(s.rid(), s.blocks.last()),
            );
            let backed = s.head is Some && signers::backers_of(
                s.rid(),
                s.head->0.identities,
                block,
            ) is Ok && signers::backers_of(
                s.rid(),
                s.head->0.identities,
                block,
            )->Ok_0.len() >= s.head->0.rule_m;
            let verified = s.walked_here(s.blocks.drop_last().push(block)) is Ok;
            &&& !(lower && backed && verified) ==> s.contested(from, block) == s
            &&& lower && backed ==> s.contested(from, block) == s.tip_replaced(block)
        }),
{
    telling_laws::lemma_block_at(s.blocks, s.blocks.len() - 1);
}

/// A decided proposal that goes back to the vote has an open card again, as it
/// was before; a card that was only made from the block goes.
pub proof fn a_displaced_decision_goes_back_to_the_vote(s: StateV, id: u64, other: u64)
    ensures
        ({
            let w = s.reopened(id);
            &&& match table::get(s.proposals, id) {
                Some(p) => if p.by.len() == 0 {
                    table::get(w.proposals, id) is None
                } else {
                    table::get(w.proposals, id) == Some(
                        RecordV { state: ProposalState::Proposed, ..p },
                    )
                },
                None => w == s,
            }
            &&& other != id ==> table::get(w.proposals, other) == table::get(s.proposals, other)
            &&& w == StateV { proposals: w.proposals, ..s }
        }),
{
    match table::get(s.proposals, id) {
        Some(p) => {
            let next = RecordV { state: ProposalState::Proposed, ..p };
            table::reading_a_put(s.proposals, id, next, id);
            table::reading_a_put(s.proposals, id, next, other);
            table::reading_a_removal(s.proposals, id, id);
            table::reading_a_removal(s.proposals, id, other);
        },
        None => {},
    }
}

/// Does some block apply that proposal?
pub open spec fn applied_in(blocks: Seq<BlockV>, id: u64) -> bool {
    exists|i: int|
        0 <= i < blocks.len() && (#[trigger] blocks[i]).change is Applied
            && blocks[i].change->Applied_proposal_id == id
}

/// What only the dropped branch decided goes back to the vote; what the kept
/// branch decides as well, or what neither decided, stays as it is.
pub proof fn only_what_was_dropped_goes_back(
    s: StateV,
    dropped: Seq<BlockV>,
    kept: Seq<BlockV>,
    id: u64,
)
    ensures
        ({
            let w = s.reopened_each(dropped, kept);
            let back = applied_in(dropped, id) && !applied_in(kept, id);
            &&& !back ==> table::get(w.proposals, id) == table::get(s.proposals, id)
            &&& back ==> match table::get(s.proposals, id) {
                Some(p) => if p.by.len() == 0 {
                    table::get(w.proposals, id) is None
                } else {
                    table::get(w.proposals, id) == Some(
                        RecordV { state: ProposalState::Proposed, ..p },
                    )
                },
                None => table::get(w.proposals, id) is None,
            }
            &&& w == StateV { proposals: w.proposals, ..s }
        }),
    decreases dropped.len(),
{
    if dropped.len() > 0 {
        let front = dropped.drop_last();
        let top = dropped.last();
        only_what_was_dropped_goes_back(s, front, kept, id);
        let rest = s.reopened_each(front, kept);
        assert(dropped[dropped.len() - 1] == top);
        if applied_in(front, id) {
            let i = choose|i: int|
                0 <= i < front.len() && (#[trigger] front[i]).change is Applied
                    && front[i].change->Applied_proposal_id == id;
            assert(dropped[i] == front[i]);
        }
        if applied_in(dropped, id) {
            let i = choose|i: int|
                0 <= i < dropped.len() && (#[trigger] dropped[i]).change is Applied
                    && dropped[i].change->Applied_proposal_id == id;
            if i < front.len() {
                assert(front[i] == dropped[i]);
            }
        }
        match top.change {
            ChangeV::Applied { proposal_id, .. } => {
                assert(sync::applies(kept, proposal_id) == applied_in(kept, proposal_id)) by {
                    if applied_in(kept, proposal_id) {
                        let i = choose|i: int|
                            0 <= i < kept.len() && (#[trigger] kept[i]).change is Applied
                                && kept[i].change->Applied_proposal_id == proposal_id;
                        assert(signers::consumed_by(kept[i].change) == Some(proposal_id));
                    }
                    if sync::applies(kept, proposal_id) {
                        let i = choose|i: int|
                            0 <= i < kept.len() && signers::consumed_by(
                                (#[trigger] kept[i]).change,
                            ) == Some(proposal_id);
                        assert(kept[i].change is Applied);
                    }
                }
                a_displaced_decision_goes_back_to_the_vote(rest, proposal_id, id);
            },
            _ => {},
        }
    }
}

/// A block ahead of the chain is held where it is near enough, and what is
/// missing is asked for from right above the head; one that is further away
/// changes nothing.
pub proof fn a_block_ahead_is_held_and_the_gap_asked_for(s: StateV, block: BlockV)
    requires
        s.head is Some,
        block.height > s.head->0.height + 1,
        s.pending_served_blob is None,
    ensures
        ({
            let w = s.ahead(block);
            let held = table::put(
                table::above(s.pending_blocks, s.head->0.height),
                block.height,
                block,
            );
            let from = (s.head->0.height + 1) as u64;
            &&& block.height > s.head->0.height + 4096 ==> w == s
            &&& block.height <= s.head->0.height + 4096 ==> {
                &&& held.len() <= 4096 ==> w.pending_blocks == held && table::get(
                    w.pending_blocks,
                    block.height,
                ) == Some(block)
                &&& w.blocks == s.blocks
                &&& w.head == s.head
                &&& w.catchup_from == Some(from)
                &&& s.catchup_from != Some(from) ==> w.effects == s.effects.push(
                    EffectV::Send {
                        body: WireV::ChainRequest { from_height: from, known: s.known() },
                    },
                )
                &&& s.catchup_from == Some(from) ==> w.effects == s.effects
            }
        }),
{
    table::reading_a_put(
        table::above(s.pending_blocks, s.head->0.height),
        block.height,
        block,
        block.height,
    );
}

/// The founding of another republic starts no chain for a holder that knows
/// its own.
pub proof fn a_foreign_founding_starts_no_chain(s: StateV, from: Seq<char>, block: BlockV)
    requires
        s.head is None,
        block.height == 0,
        block.change is Genesis,
        s.rid().len() > 0,
        block.change->Genesis_republic_id != s.rid(),
    ensures
        s.block_heard(from, block).blocks == s.blocks,
        s.block_heard(from, block).head is None,
        s.block_heard(from, block).effects == s.effects,
{
}

/// A block that links to another block than the head, though it stands right
/// above it, is taken for another branch: it is kept, and whoever sent it is
/// on record as astray since the head.
pub proof fn a_block_on_another_head_is_another_branch(s: StateV, from: Seq<char>, block: BlockV)
    requires
        s.head is Some,
        block.height == s.head->0.height + 1,
        block.prev != s.head->0.hash,
    ensures
        s.block_heard(from, block) == s.peer_noted(from, block.height).diverging(
            from,
            s.head->0.height,
        ).fork_kept(block).reorganizing(),
{
}

/// A block shares its base with the own chain where the own block right below
/// it is the one it links to, or where there is none.
pub proof fn a_block_shares_its_base_where_it_links_to_it(s: StateV, block: BlockV, i: int)
    requires
        telling_laws::one_height_each(s.blocks),
        0 <= i < s.blocks.len(),
        s.blocks[i].height + 1 == block.height,
        block.height < u64::MAX,
    ensures
        s.shares_prev(block) <==> signers::block_hash_of(s.rid(), s.blocks[i]) == block.prev,
{
    lemma_under(s.blocks, block.height, i);
}

/// The block right below a height.
proof fn lemma_under(blocks: Seq<BlockV>, height: u64, i: int)
    requires
        telling_laws::one_height_each(blocks),
        0 <= i < blocks.len(),
        blocks[i].height + 1 == height,
        height < u64::MAX,
    ensures
        sync::block_under(blocks, height) == Some(blocks[i]),
    decreases blocks.len(),
{
    if i > 0 && crate::state::after(blocks[0].height) != height {
        let rest = blocks.skip(1);
        assert(telling_laws::one_height_each(rest)) by {
            assert forall|a: int, b: int| 0 <= a < b < rest.len() implies (
            #[trigger] rest[a]).height != (#[trigger] rest[b]).height by {
                assert(rest[a] == blocks[a + 1] && rest[b] == blocks[b + 1]);
            }
        }
        assert(rest[i - 1] == blocks[i]);
        lemma_under(rest, height, i - 1);
    } else if i > 0 {
        assert(blocks[0].height != blocks[i].height);
    }
}

/// Another block for a height that is filled, on another base, is a branch
/// from below it; on the same base but below the tip, a branch from its height.
/// The same block again says that its sender is on this branch.
pub proof fn another_block_for_a_filled_height_is_a_branch(
    s: StateV,
    from: Seq<char>,
    block: BlockV,
    i: int,
)
    requires
        telling_laws::one_height_each(s.blocks),
        0 <= i < s.blocks.len(),
        s.blocks[i].height == block.height,
    ensures
        block == s.blocks[i] ==> s.contested(from, block) == s.converging(from),
        block != s.blocks[i] && !s.shares_prev(block) ==> s.contested(from, block) == s.diverging(
            from,
            if block.height > 0 {
                (block.height - 1) as u64
            } else {
                0
            },
        ).fork_kept(block).reorganizing(),
        block != s.blocks[i] && s.shares_prev(block) && i < s.blocks.len() - 1 ==> s.contested(
            from,
            block,
        ) == s.diverging(from, block.height).fork_kept(block).reorganizing(),
{
    telling_laws::lemma_block_at(s.blocks, i);
    if i < s.blocks.len() - 1 {
        assert(s.blocks[i].height != s.blocks[s.blocks.len() - 1].height);
    }
}

/// Where no kept block fits yet, the heights below the lowest of them are asked
/// for, down to right above the first block that is held.
pub proof fn a_gap_below_a_branch_is_asked_for(s: StateV)
    requires
        s.head is Some,
        s.blocks.len() > 0,
        s.blocks[0].height < u64::MAX,
        sync::fork_height(s.rid(), s.blocks, s.fork_candidates) is None,
        s.fork_candidates.len() > 0,
        s.fork_candidates[0].0 > s.blocks[0].height + 1,
        s.catchup_from != Some((s.fork_candidates[0].0 - 1) as u64),
    ensures
        s.reorganizing().effects == s.effects.push(
            EffectV::Send {
                body: WireV::ChainRequest {
                    from_height: (s.fork_candidates[0].0 - 1) as u64,
                    known: s.known(),
                },
            },
        ),
        s.reorganizing().catchup_from == Some((s.fork_candidates[0].0 - 1) as u64),
{
}

/// A holder without a chain holds what is not a founding until it has one.
pub proof fn a_block_without_a_chain_is_held(s: StateV, from: Seq<char>, block: BlockV)
    requires
        s.head is None,
        block.height > 0,
        s.pending_served_blob is None,
        table::put(s.pending_blocks, block.height, block).len() <= 4096,
    ensures
        ({
            let w = s.block_heard(from, block);
            &&& table::get(w.pending_blocks, block.height) == Some(block)
            &&& w.blocks == s.blocks
            &&& w.head is None
            &&& w.effects == s.effects
        }),
{
    table::reading_a_put(s.pending_blocks, block.height, block, block.height);
}

/// Once the held blocks were applied, the chain is handed to the storage as it
/// then stands.
pub proof fn a_drained_chain_is_handed_to_the_storage(s: StateV)
    requires
        !s.drained().drain_waits,
    ensures
        s.drained().effects.len() > 0,
        s.drained().effects.last() == (EffectV::PersistChain {
            blob: s.drained().checkpoint_blob,
            blocks: s.drained().blocks,
        }),
{
}

/// While the host still owes an answer about wiki patches, what waits for it
/// goes on waiting; with the last answer it goes on.
pub proof fn what_waits_goes_on_with_the_last_answer(s: StateV, ids: Seq<u64>)
    ensures
        s.wiki_asked > 1 ==> s.patches_settled(ids) == (StateV {
            wiki_asked: (s.wiki_asked - 1) as u64,
            ..s.retiring_each(ids)
        }),
        s.wiki_asked == 1 ==> s.patches_settled(ids) == (StateV {
            wiki_asked: 0,
            ..s.retiring_each(ids)
        }).resuming(),
{
}

} // verus!
