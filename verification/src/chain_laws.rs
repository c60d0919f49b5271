//! What holds of every chain that verifies.

use crate::fault::FaultV;
use crate::fold;
use crate::model::{BlockV, ChangeV, IdentityV, SummaryV};
use crate::signers;
use crate::signers::HeadV;
use crate::walk;
use crate::walk::WalkV;
use vstd::prelude::*;
use vstd::relations::*;
use vstd::seq_lib::*;

verus! {

/// Walking on over one block more is the step after the walk so far.
pub proof fn lemma_walked_on_push(w: WalkV, blocks: Seq<BlockV>, block: BlockV)
    ensures
        walk::walked_on(w, blocks.push(block)) == (match walk::walked_on(w, blocks) {
            Err(e) => Err(e),
            Ok(next) => walk::stepped(next, block),
        }),
    decreases blocks.len(),
{
    let all = blocks.push(block);
    if blocks.len() == 0 {
        assert(all[0] == block);
        assert(all.skip(1) =~= Seq::empty());
        match walk::stepped(w, block) {
            Err(e) => {},
            Ok(next) => {
                assert(walk::walked_on(next, all.skip(1)) == Ok::<WalkV, FaultV>(next));
            },
        }
    } else {
        assert(all[0] == blocks[0]);
        assert(all.skip(1) =~= blocks.skip(1).push(block));
        match walk::stepped(w, blocks[0]) {
            Err(e) => {},
            Ok(next) => {
                lemma_walked_on_push(next, blocks.skip(1), block);
            },
        }
    }
}

/// Extending a verified prefix by one block is the same as verifying the
/// longer chain from its founding.
pub proof fn extending_equals_walking_again(blocks: Seq<BlockV>, block: BlockV)
    requires
        blocks.len() > 0,
    ensures
        walk::walked(blocks.push(block)) == (match walk::walked(blocks) {
            Err(e) => Err(e),
            Ok(w) => walk::stepped(w, block),
        }),
{
    let all = blocks.push(block);
    assert(all[0] == blocks[0]);
    assert(all.skip(1) =~= blocks.skip(1).push(block));
    match walk::founded_walk(blocks[0]) {
        Err(e) => {},
        Ok(w) => {
            lemma_walked_on_push(w, blocks.skip(1), block);
        },
    }
}

/// Extending a verified suffix by one block is the same as verifying the
/// longer suffix from its summary.
pub proof fn extending_a_suffix_equals_walking_again(
    blob: SummaryV,
    blocks: Seq<BlockV>,
    block: BlockV,
    expected: Seq<char>,
)
    requires
        blocks.len() > 0,
    ensures
        walk::walked_suffix(blob, blocks.push(block), expected) == (match walk::walked_suffix(
            blob,
            blocks,
            expected,
        ) {
            Err(e) => Err(e),
            Ok(w) => walk::stepped(w, block),
        }),
{
    let all = blocks.push(block);
    assert(all[0] == blocks[0]);
    assert(all.skip(1) =~= blocks.skip(1).push(block));
    lemma_walked_on_push(walk::rooted_walk(blob, blocks[0]), blocks.skip(1), block);
}

/// Every prefix of a verified chain verifies.
pub proof fn every_prefix_verifies(blocks: Seq<BlockV>, n: int)
    requires
        walk::walked(blocks) is Ok,
        0 < n <= blocks.len(),
    ensures
        walk::walked(blocks.take(n)) is Ok,
    decreases blocks.len(),
{
    if n < blocks.len() {
        let front = blocks.drop_last();
        assert(blocks =~= front.push(blocks.last()));
        extending_equals_walking_again(front, blocks.last());
        every_prefix_verifies(front, n);
        assert(front.take(n) =~= blocks.take(n));
    } else {
        assert(blocks.take(n) =~= blocks);
    }
}

/// The proposal ids that the blocks consume, in order.
pub open spec fn ids_of(blocks: Seq<BlockV>) -> Seq<u64>
    decreases blocks.len(),
{
    if blocks.len() == 0 {
        Seq::empty()
    } else {
        match signers::consumed_by(blocks.last().change) {
            Some(id) => ids_of(blocks.drop_last()).push(id),
            None => ids_of(blocks.drop_last()),
        }
    }
}

/// The links and the heights of a chain: each block names the hash of the one
/// before and stands one higher.
pub open spec fn linked(republic_id: Seq<char>, blocks: Seq<BlockV>) -> bool {
    forall|i: int|
        0 < i < blocks.len() ==> {
            &&& (#[trigger] blocks[i]).height == blocks[i - 1].height + 1
            &&& blocks[i].prev == signers::block_hash_of(republic_id, blocks[i - 1])
        }
}

/// Does every block after the first carry at least m distinct voices of the
/// roster?
pub open spec fn backed(head: HeadV, blocks: Seq<BlockV>) -> bool {
    forall|i: int|
        0 < i < blocks.len() ==> {
            &&& signers::backers_of(
                head.republic_id,
                head.identities,
                #[trigger] blocks[i],
            ) is Ok
            &&& signers::backers_of(head.republic_id, head.identities, blocks[i])->Ok_0.len()
                >= head.rule_m
        }
}

/// The founding roster of a chain.
pub open spec fn founding_roster(block: BlockV) -> Seq<IdentityV> {
    match block.change {
        ChangeV::Genesis { identities, .. } => identities,
        _ => Seq::empty(),
    }
}

/// What an accepted step says of its block and of the walk after it.
pub proof fn lemma_step_facts(v: WalkV, block: BlockV)
    requires
        walk::stepped(v, block) is Ok,
    ensures
        ({
            let w = walk::stepped(v, block)->Ok_0;
            &&& signers::placement_fault(v.head, block, v.seen) is None
            &&& walk::checkpoint_fault(v, block.change) is None
            &&& signers::backers_of(v.head.republic_id, v.head.identities, block) is Ok
            &&& signers::backers_of(v.head.republic_id, v.head.identities, block)->Ok_0.len()
                >= v.head.rule_m
            &&& w.head == (HeadV {
                height: block.height,
                hash: signers::block_hash_of(v.head.republic_id, block),
                ..v.head
            })
            &&& w.seen == (match signers::consumed_by(block.change) {
                Some(id) => v.seen.insert(id),
                None => v.seen,
            })
            &&& fold::folded(v.running, block) == Ok::<SummaryV, FaultV>(w.running)
            &&& w.running.roster == v.running.roster
            &&& w.running.consumed_ids == (match signers::consumed_by(block.change) {
                Some(id) => v.running.consumed_ids.push(id),
                None => v.running.consumed_ids,
            })
            &&& w.floor == v.floor
        }),
{
    reveal(walk::stepped);
    reveal(signers::next_head);
}

/// What verification proves of a chain: the heights count up from zero, every
/// link holds, every block carries the threshold, no proposal is applied
/// twice, the roster is still the founding roster, and the ids seen are
/// exactly those applied.
pub proof fn a_verified_chain_is_sound(blocks: Seq<BlockV>)
    requires
        walk::walked(blocks) is Ok,
    ensures
        ({
            let w = walk::walked(blocks)->Ok_0;
            &&& blocks.len() > 0
            &&& w.head.height == blocks.len() - 1
            &&& forall|i: int| 0 <= i < blocks.len() ==> (#[trigger] blocks[i]).height == i
            &&& w.head.hash == signers::block_hash_of(w.head.republic_id, blocks.last())
            &&& linked(w.head.republic_id, blocks)
            &&& backed(w.head, blocks)
            &&& w.head.identities == founding_roster(blocks[0])
            &&& ids_of(blocks).no_duplicates()
            &&& forall|id: u64| w.seen.contains(id) <==> ids_of(blocks).contains(id)
            &&& w.floor is None
            &&& w.running.roster == founding_roster(blocks[0])
            &&& forall|i: int| 0 < i < blocks.len() ==> !((#[trigger] blocks[i]).change is Genesis)
            &&& w.running.consumed_ids == ids_of(blocks)
        }),
    decreases blocks.len(),
{
    let w = walk::walked(blocks)->Ok_0;
    if blocks.len() == 1 {
        assert(blocks.skip(1) =~= Seq::empty());
        assert(blocks.last() == blocks[0]);
        assert(blocks.drop_last() =~= Seq::empty());
        assert(blocks[0].change is Genesis);
        assert(ids_of(blocks.drop_last()) =~= Seq::empty());
        assert(ids_of(blocks) =~= Seq::empty());
    } else {
        let front = blocks.drop_last();
        let block = blocks.last();
        assert(blocks =~= front.push(block));
        extending_equals_walking_again(front, block);
        a_verified_chain_is_sound(front);
        let v = walk::walked(front)->Ok_0;
        assert(walk::stepped(v, block) == Ok::<WalkV, FaultV>(w));
        lemma_step_facts(v, block);
        assert(front[0] == blocks[0]);
        assert forall|i: int| 0 <= i < blocks.len() implies (#[trigger] blocks[i]).height == i by {
            if i < front.len() {
                assert(front[i] == blocks[i]);
            }
        }
        assert forall|i: int| 0 < i < blocks.len() implies {
            &&& (#[trigger] blocks[i]).height == blocks[i - 1].height + 1
            &&& blocks[i].prev == signers::block_hash_of(w.head.republic_id, blocks[i - 1])
        } by {
            if i < front.len() {
                assert(front[i] == blocks[i]);
                assert(front[i - 1] == blocks[i - 1]);
            } else {
                assert(front.last() == blocks[i - 1]);
            }
        }
        assert forall|i: int| 0 < i < blocks.len() implies {
            &&& signers::backers_of(
                w.head.republic_id,
                w.head.identities,
                #[trigger] blocks[i],
            ) is Ok
            &&& signers::backers_of(w.head.republic_id, w.head.identities, blocks[i])->Ok_0.len()
                >= w.head.rule_m
        } by {
            if i < front.len() {
                assert(front[i] == blocks[i]);
            }
        }
        assert forall|i: int| 0 < i < blocks.len() implies !((
        #[trigger] blocks[i]).change is Genesis) by {
            if i < front.len() {
                assert(front[i] == blocks[i]);
            }
        }
        match signers::consumed_by(block.change) {
            Some(id) => {
                assert(!v.seen.contains(id));
                assert(!ids_of(front).contains(id));
                let ids = ids_of(blocks);
                assert(ids == ids_of(front).push(id));
                assert forall|i: int, j: int|
                    0 <= i < ids.len() && 0 <= j < ids.len() && i != j implies ids[i] != ids[j] by {
                    if i < ids_of(front).len() && j == ids_of(front).len() {
                        assert(ids_of(front)[i] == ids[i]);
                        assert(ids_of(front).contains(ids[i]));
                    }
                    if j < ids_of(front).len() && i == ids_of(front).len() {
                        assert(ids_of(front)[j] == ids[j]);
                        assert(ids_of(front).contains(ids[j]));
                    }
                }
                assert forall|x: u64| w.seen.contains(x) <==> ids.contains(x) by {
                    if ids_of(front).contains(x) {
                        let k = choose|k: int| 0 <= k < ids_of(front).len() && ids_of(front)[k] == x;
                        assert(ids[k] == x);
                    }
                    if x == id {
                        assert(ids[ids_of(front).len() as int] == x);
                    }
                    if ids.contains(x) {
                        let k = choose|k: int| 0 <= k < ids.len() && ids[k] == x;
                        if k < ids_of(front).len() {
                            assert(ids_of(front)[k] == x);
                        }
                    }
                }
            },
            None => {},
        }
    }
}

/// Folding through one block more is the fold after the fold so far.
pub proof fn lemma_folded_push(state: SummaryV, blocks: Seq<BlockV>, block: BlockV, upto: u64)
    requires
        block.height <= upto,
        forall|i: int| 0 <= i < blocks.len() ==> (#[trigger] blocks[i]).height <= upto,
    ensures
        fold::folded_through(state, blocks.push(block), upto) == (match fold::folded_through(
            state,
            blocks,
            upto,
        ) {
            Err(e) => Err(e),
            Ok(s) => fold::folded(s, block),
        }),
    decreases blocks.len(),
{
    let all = blocks.push(block);
    if blocks.len() == 0 {
        assert(all[0] == block);
        assert(all.skip(1) =~= Seq::empty());
        match fold::folded(state, block) {
            Err(e) => {},
            Ok(s) => {
                assert(fold::folded_through(s, all.skip(1), upto) == Ok::<SummaryV, FaultV>(s));
            },
        }
    } else {
        assert(all[0] == blocks[0]);
        assert(all.skip(1) =~= blocks.skip(1).push(block));
        assert forall|i: int| 0 <= i < blocks.skip(1).len() implies (#[trigger] blocks.skip(1)[i]).height
            <= upto by {
            assert(blocks.skip(1)[i] == blocks[i + 1]);
        }
        match fold::folded(state, blocks[0]) {
            Err(e) => {},
            Ok(s) => {
                lemma_folded_push(s, blocks.skip(1), block, upto);
            },
        }
    }
}

/// A fold through all blocks does not depend on how far above them it may go.
pub proof fn lemma_folded_upto(state: SummaryV, blocks: Seq<BlockV>, a: u64, b: u64)
    requires
        forall|i: int| 0 <= i < blocks.len() ==> (#[trigger] blocks[i]).height <= a,
        a <= b,
    ensures
        fold::folded_through(state, blocks, a) == fold::folded_through(state, blocks, b),
    decreases blocks.len(),
{
    if blocks.len() > 0 {
        assert(blocks[0].height <= a);
        assert forall|i: int| 0 <= i < blocks.skip(1).len() implies (#[trigger] blocks.skip(1)[i]).height
            <= a by {
            assert(blocks.skip(1)[i] == blocks[i + 1]);
        }
        match fold::folded(state, blocks[0]) {
            Err(e) => {},
            Ok(s) => {
                lemma_folded_upto(s, blocks.skip(1), a, b);
            },
        }
    }
}

/// The state that the walk carries is the state that the batch fold computes:
/// a proposer's cut is what every verifier recomputes.
pub proof fn walk_and_fold_agree(blocks: Seq<BlockV>)
    requires
        walk::walked(blocks) is Ok,
    ensures
        ({
            let w = walk::walked(blocks)->Ok_0;
            &&& fold::founded_state(blocks[0].change) is Some
            &&& fold::folded_through(
                fold::founded_state(blocks[0].change)->0,
                blocks.skip(1),
                w.head.height,
            ) == Ok::<SummaryV, FaultV>(w.running)
            &&& fold::summary_of(blocks, w.head.height) == Ok::<SummaryV, FaultV>(
                fold::cut_at(w.running, w.head.height),
            )
        }),
    decreases blocks.len(),
{
    a_verified_chain_is_sound(blocks);
    let w = walk::walked(blocks)->Ok_0;
    if blocks.len() == 1 {
        assert(blocks.skip(1) =~= Seq::empty());
    } else {
        let front = blocks.drop_last();
        let block = blocks.last();
        assert(blocks =~= front.push(block));
        extending_equals_walking_again(front, block);
        walk_and_fold_agree(front);
        a_verified_chain_is_sound(front);
        let v = walk::walked(front)->Ok_0;
        lemma_step_facts(v, block);
        let base = fold::founded_state(blocks[0].change)->0;
        assert(front[0] == blocks[0]);
        assert(blocks.skip(1) =~= front.skip(1).push(block));
        assert forall|i: int| 0 <= i < front.skip(1).len() implies (#[trigger] front.skip(1)[i]).height
            <= v.head.height by {
            assert(front.skip(1)[i] == front[i + 1]);
        }
        lemma_folded_upto(base, front.skip(1), v.head.height, w.head.height);
        lemma_folded_push(base, front.skip(1), block, w.head.height);
    }
}

/// A checkpoint whose hash is the batch fold's, placed on a verified chain and
/// backed by the threshold, is accepted.
pub proof fn a_truthful_checkpoint_is_accepted(blocks: Seq<BlockV>, cut: BlockV)
    requires
        walk::walked(blocks) is Ok,
        cut.change is Checkpoint,
        ({
            let w = walk::walked(blocks)->Ok_0;
            &&& cut.change->upto == w.head.height
            &&& cut.height == w.head.height + 1
            &&& cut.prev == w.head.hash
            &&& cut.change->state_hash == fold::state_hash_of(
                fold::summary_of(blocks, w.head.height)->Ok_0,
            )
            &&& signers::backers_of(w.head.republic_id, w.head.identities, cut) is Ok
            &&& signers::backers_of(w.head.republic_id, w.head.identities, cut)->Ok_0.len()
                >= w.head.rule_m
        }),
    ensures
        walk::walked(blocks.push(cut)) is Ok,
{
    walk_and_fold_agree(blocks);
    a_verified_chain_is_sound(blocks);
    extending_equals_walking_again(blocks, cut);
    reveal(walk::stepped);
    reveal(signers::next_head);
}

/// A checkpoint that does not carry this chain's own hash is refused.
pub proof fn a_false_checkpoint_is_refused(blocks: Seq<BlockV>, cut: BlockV)
    requires
        walk::walked(blocks) is Ok,
        cut.change is Checkpoint,
        cut.change->state_hash != fold::state_hash_of(
            fold::summary_of(blocks, walk::walked(blocks)->Ok_0.head.height)->Ok_0,
        ),
    ensures
        walk::walked(blocks.push(cut)) is Err,
{
    walk_and_fold_agree(blocks);
    extending_equals_walking_again(blocks, cut);
    if walk::walked(blocks.push(cut)) is Ok {
        lemma_step_facts(walk::walked(blocks)->Ok_0, cut);
    }
}

/// Two states that differ only in the order of their consumed ids and in how
/// far they claim to reach.
pub open spec fn same_content(a: SummaryV, b: SummaryV) -> bool {
    &&& a.consumed_ids.to_multiset() == b.consumed_ids.to_multiset()
    &&& a == (SummaryV { consumed_ids: a.consumed_ids, upto: a.upto, ..b })
}

pub proof fn lemma_same_sorted(a: Seq<u64>, b: Seq<u64>)
    requires
        a.to_multiset() == b.to_multiset(),
    ensures
        fold::sorted_ids(a) == fold::sorted_ids(b),
{
    fold::sorting_orders_and_keeps(a);
    fold::sorting_orders_and_keeps(b);
    let leq = |x: u64, y: u64| x <= y;
    assert(total_ordering(leq));
    assert(sorted_by(fold::sorted_ids(a), leq));
    assert(sorted_by(fold::sorted_ids(b), leq));
    lemma_sorted_unique(fold::sorted_ids(a), fold::sorted_ids(b), leq);
}

pub proof fn lemma_same_content_folds(a: SummaryV, b: SummaryV, blocks: Seq<BlockV>, upto: u64)
    requires
        same_content(a, b),
    ensures
        match (fold::folded_through(a, blocks, upto), fold::folded_through(b, blocks, upto)) {
            (Ok(x), Ok(y)) => same_content(x, y),
            (Err(x), Err(y)) => x == y,
            _ => false,
        },
    decreases blocks.len(),
{
    broadcast use group_to_multiset_ensures;

    if blocks.len() > 0 && blocks[0].height <= upto {
        match (fold::folded(a, blocks[0]), fold::folded(b, blocks[0])) {
            (Ok(x), Ok(y)) => {
                match blocks[0].change {
                    ChangeV::Applied { proposal_id, surface, payload } => {
                        assert(x.consumed_ids == a.consumed_ids.push(proposal_id));
                        assert(y.consumed_ids == b.consumed_ids.push(proposal_id));
                        assert(x.consumed_ids.to_multiset() == a.consumed_ids.to_multiset().insert(
                            proposal_id,
                        ));
                        assert(y.consumed_ids.to_multiset() == b.consumed_ids.to_multiset().insert(
                            proposal_id,
                        ));
                    },
                    _ => {},
                }
                lemma_same_content_folds(x, y, blocks.skip(1), upto);
            },
            _ => {},
        }
    }
}

/// Folding through two runs of blocks is folding the second onto the first.
proof fn lemma_folded_split(state: SummaryV, first: Seq<BlockV>, rest: Seq<BlockV>, upto: u64)
    requires
        forall|i: int| 0 <= i < first.len() ==> (#[trigger] first[i]).height <= upto,
    ensures
        fold::folded_through(state, first + rest, upto) == (match fold::folded_through(
            state,
            first,
            upto,
        ) {
            Err(e) => Err(e),
            Ok(s) => fold::folded_through(s, rest, upto),
        }),
    decreases first.len(),
{
    let all = first + rest;
    if first.len() == 0 {
        assert(all =~= rest);
    } else {
        assert(all[0] == first[0]);
        assert(all.skip(1) =~= first.skip(1) + rest);
        assert forall|i: int| 0 <= i < first.skip(1).len() implies (#[trigger] first.skip(1)[i]).height
            <= upto by {
            assert(first.skip(1)[i] == first[i + 1]);
        }
        match fold::folded(state, first[0]) {
            Err(e) => {},
            Ok(s) => {
                lemma_folded_split(s, first.skip(1), rest, upto);
            },
        }
    }
}

/// The fold through blocks below `upto` ends where a higher block stands.
pub proof fn lemma_folded_cut(state: SummaryV, first: Seq<BlockV>, rest: Seq<BlockV>, upto: u64)
    requires
        forall|i: int| 0 <= i < first.len() ==> (#[trigger] first[i]).height <= upto,
        rest.len() > 0 ==> rest[0].height > upto,
    ensures
        fold::folded_through(state, first + rest, upto) == fold::folded_through(
            state,
            first,
            upto,
        ),
{
    lemma_folded_split(state, first, rest, upto);
}

/// A holder that folds later blocks onto a cut's summary lands where a holder
/// lands that folds from the founding: pruning changes nothing.
pub proof fn a_pruned_holder_agrees_with_a_full_one(blocks: Seq<BlockV>, cut: u64, upto: u64)
    requires
        walk::walked(blocks) is Ok,
        cut <= upto,
        cut < blocks.len(),
        fold::summary_of(blocks, cut) is Ok,
    ensures
        fold::state_through(
            fold::summary_of(blocks, cut)->Ok_0,
            blocks.skip(cut + 1),
            upto,
        ) == fold::summary_of(blocks, upto),
{
    a_verified_chain_is_sound(blocks);
    let base = fold::founded_state(blocks[0].change)->0;
    let first = blocks.skip(1).take(cut as int);
    let rest = blocks.skip(cut + 1);
    assert(blocks.skip(1) =~= first + rest);
    assert forall|i: int| 0 <= i < first.len() implies (#[trigger] first[i]).height <= cut by {
        assert(first[i] == blocks[i + 1]);
    }
    assert forall|i: int| 0 <= i < first.len() implies (#[trigger] first[i]).height <= upto by {
        assert(first[i] == blocks[i + 1]);
    }
    if rest.len() > 0 {
        assert(rest[0] == blocks[cut + 1]);
    }
    lemma_folded_cut(base, first, rest, cut);
    lemma_folded_split(base, first, rest, upto);
    lemma_folded_upto(base, first, cut, upto);
    let mid = fold::folded_through(base, first, cut)->Ok_0;
    let blob = fold::summary_of(blocks, cut)->Ok_0;
    assert(blob == fold::cut_at(mid, cut));
    fold::sorting_orders_and_keeps(mid.consumed_ids);
    assert(same_content(blob, mid));
    lemma_same_content_folds(blob, mid, rest, upto);
    match (fold::folded_through(blob, rest, upto), fold::folded_through(mid, rest, upto)) {
        (Ok(x), Ok(y)) => {
            lemma_same_sorted(x.consumed_ids, y.consumed_ids);
            assert(fold::cut_at(x, upto) == fold::cut_at(y, upto));
        },
        _ => {},
    }
}

/// A suffix that verifies never re-applies a proposal that its summary
/// consumed, even where the summary dropped its payload.
pub proof fn a_consumed_id_never_applies_again(
    blob: SummaryV,
    blocks: Seq<BlockV>,
    expected: Seq<char>,
    i: int,
)
    requires
        walk::walked_suffix(blob, blocks, expected) is Ok,
        0 < i < blocks.len(),
        signers::consumed_by(blocks[i].change) is Some,
    ensures
        !blob.consumed_ids.contains(signers::consumed_by(blocks[i].change)->0),
    decreases blocks.len(),
{
    lemma_suffix_keeps_seen(blob, blocks, expected);
    let front = blocks.drop_last();
    assert(blocks =~= front.push(blocks.last()));
    if front.len() > 0 {
        extending_a_suffix_equals_walking_again(blob, front, blocks.last(), expected);
        let v = walk::walked_suffix(blob, front, expected)->Ok_0;
        lemma_step_facts(v, blocks.last());
        if i < front.len() {
            assert(front[i] == blocks[i]);
            a_consumed_id_never_applies_again(blob, front, expected, i);
        } else {
            lemma_suffix_keeps_seen(blob, front, expected);
            let id = signers::consumed_by(blocks[i].change)->0;
            assert(!v.seen.contains(id));
            if blob.consumed_ids.contains(id) {
                assert(blob.consumed_ids.to_set().contains(id));
            }
        }
    }
}

/// A suffix walk has seen everything that its summary consumed.
proof fn lemma_suffix_keeps_seen(blob: SummaryV, blocks: Seq<BlockV>, expected: Seq<char>)
    requires
        walk::walked_suffix(blob, blocks, expected) is Ok,
    ensures
        blob.consumed_ids.to_set().subset_of(
            walk::walked_suffix(blob, blocks, expected)->Ok_0.seen,
        ),
    decreases blocks.len(),
{
    if blocks.len() == 1 {
        assert(blocks.skip(1) =~= Seq::empty());
    } else {
        let front = blocks.drop_last();
        assert(blocks =~= front.push(blocks.last()));
        extending_a_suffix_equals_walking_again(blob, front, blocks.last(), expected);
        lemma_suffix_keeps_seen(blob, front, expected);
        lemma_step_facts(walk::walked_suffix(blob, front, expected)->Ok_0, blocks.last());
    }
}

/// The roster of a suffix never moves: every seat is a founding seat with its
/// founding keys.
pub proof fn a_suffix_keeps_the_founding_keys(
    blob: SummaryV,
    blocks: Seq<BlockV>,
    expected: Seq<char>,
    i: int,
)
    requires
        walk::walked_suffix(blob, blocks, expected) is Ok,
        0 <= i < walk::walked_suffix(blob, blocks, expected)->Ok_0.head.identities.len(),
    ensures
        blob.founding_identities.contains(
            walk::walked_suffix(blob, blocks, expected)->Ok_0.head.identities[i],
        ),
    decreases blocks.len(),
{
    if blocks.len() == 1 {
        assert(blocks.skip(1) =~= Seq::empty());
        lemma_all_anchored(blob.roster, blob.founding_identities, i);
    } else {
        let front = blocks.drop_last();
        assert(blocks =~= front.push(blocks.last()));
        extending_a_suffix_equals_walking_again(blob, front, blocks.last(), expected);
        lemma_step_facts(walk::walked_suffix(blob, front, expected)->Ok_0, blocks.last());
        a_suffix_keeps_the_founding_keys(blob, front, expected, i);
    }
}

proof fn lemma_all_anchored(roster: Seq<IdentityV>, founding: Seq<IdentityV>, i: int)
    requires
        walk::unanchored(roster, founding) is None,
        0 <= i < roster.len(),
    ensures
        founding.contains(roster[i]),
    decreases roster.len(),
{
    if i > 0 {
        assert(roster.skip(1)[i - 1] == roster[i]);
        lemma_all_anchored(roster.skip(1), founding, i - 1);
    }
}

} // verus!
