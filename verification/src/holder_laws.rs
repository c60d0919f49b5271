//! What holds of a holder, whatever it does: its chain verifies, its head is
//! the head that the chain verifies to, and the walk that it keeps is never
//! trusted where it is not the walk of that chain.

use crate::chain_laws;
use crate::checkpoint;
use crate::fault::FaultV;
use crate::fold;
use crate::governance;
use crate::history;
use crate::identity;
use crate::membership::RequestV;
use crate::model::{
    AnchorV, AttestationV, BlockV, ChangeV, DeclarationV, IdentityV, SummaryV, Surface,
};
use crate::payload::PayloadV;
use crate::quiet_laws;
use crate::recovery;
use crate::sealing;
use crate::signers;
use crate::state::{EffectV, ProposalState, RecoveryV, StateV};
use crate::sync;
use crate::sync_laws;
use crate::table;
use crate::text;
use crate::walk;
use crate::walk::WalkV;
use vstd::prelude::*;
use vstd::seq_lib::*;

verus! {

/// Is the kept walk one of a chain with another, losing tip? Such a walk is
/// left over from a contest at the tip.
pub open spec fn outlived(s: StateV) -> bool {
    &&& s.blocks.len() > 0
    &&& text::before(
        signers::block_hash_of(s.rid(), s.blocks.last()),
        s.walk->0.head.hash,
    )
}

/// Does the holder's chain verify, for its own republic, to the head that it
/// has? A kept walk is the walk of that chain, or one that a contest at the
/// tip has outlived.
pub open spec fn sound(s: StateV) -> bool {
    match s.head {
        None => s.blocks.len() == 0,
        Some(h) => {
            &&& s.walked_here(s.blocks) is Ok
            &&& s.walked_here(s.blocks)->Ok_0.head == h
            &&& h.republic_id == s.rid()
            &&& s.walk is Some ==> {
                &&& s.walk->0.head.republic_id == s.rid()
                &&& s.walked_here(s.blocks) == Ok::<WalkV, FaultV>(s.walk->0) || outlived(s)
            }
        },
    }
}

/// Walking a chain of this holder that is one block longer is a step further.
proof fn lemma_here_push(s: StateV, front: Seq<BlockV>, block: BlockV)
    requires
        front.len() > 0,
    ensures
        s.walked_here(front.push(block)) == (match s.walked_here(front) {
            Err(e) => Err(e),
            Ok(w) => walk::stepped(w, block),
        }),
{
    match s.checkpoint_blob {
        None => chain_laws::extending_equals_walking_again(front, block),
        Some(blob) => chain_laws::extending_a_suffix_equals_walking_again(
            blob,
            front,
            block,
            s.rid(),
        ),
    }
}

/// The summary that a walk carries could root a chain by itself.
pub open spec fn rootable(w: WalkV) -> bool {
    let r = w.running;
    &&& r.republic_id == w.head.republic_id
    &&& identity::republic_id_of(r.founding_name, r.rule_m, r.rule_n, r.founding_identities)
        == w.head.republic_id
    &&& r.rule_m == w.head.rule_m
    &&& 0 < r.rule_m <= r.rule_n
    &&& r.rule_n == r.founding_identities.len()
    &&& r.roster == w.head.identities
    &&& r.roster.len() > 0
    &&& walk::unanchored(r.roster, r.founding_identities) is None
}

/// A step keeps the founding part of the summary.
proof fn lemma_step_rootable(v: WalkV, block: BlockV)
    requires
        rootable(v),
        walk::stepped(v, block) is Ok,
    ensures
        rootable(walk::stepped(v, block)->Ok_0),
{
    chain_laws::lemma_step_facts(v, block);
}

/// A roster that is its own founding table is checked against it.
proof fn lemma_self_anchored(roster: Seq<IdentityV>, founding: Seq<IdentityV>)
    requires
        forall|i: int| 0 <= i < roster.len() ==> founding.contains(#[trigger] roster[i]),
    ensures
        walk::unanchored(roster, founding) is None,
    decreases roster.len(),
{
    if roster.len() > 0 {
        assert(founding.contains(roster[0]));
        assert forall|i: int| 0 <= i < roster.skip(1).len() implies founding.contains(
            #[trigger] roster.skip(1)[i],
        ) by {
            assert(roster.skip(1)[i] == roster[i + 1]);
        }
        lemma_self_anchored(roster.skip(1), founding);
    }
}

/// What a longer list holds.
proof fn lemma_contains_push(ids: Seq<u64>, x: u64, id: u64)
    ensures
        ids.push(x).contains(id) <==> ids.contains(id) || id == x,
{
    let longer = ids.push(x);
    if ids.contains(id) {
        let k = choose|k: int| 0 <= k < ids.len() && ids[k] == id;
        assert(longer[k] == id);
    }
    assert(longer[ids.len() as int] == x);
}

/// What the blocks of this holder are folded onto.
pub open spec fn fold_base(s: StateV, first: BlockV) -> SummaryV {
    match s.checkpoint_blob {
        None => fold::founded_state(first.change)->0,
        Some(blob) => blob,
    }
}

/// What the walk of a chain says of it: its summary could root a chain, its
/// head is the last block, the heights count up, its summary is the fold of
/// the blocks, and it has seen what the summary consumed.
proof fn lemma_walk_facts(s: StateV, blocks: Seq<BlockV>)
    requires
        s.walked_here(blocks) is Ok,
    ensures
        blocks.len() > 0,
        ({
            let w = s.walked_here(blocks)->Ok_0;
            &&& rootable(w)
            &&& w.head.height == blocks.last().height
            &&& w.head.hash == signers::block_hash_of(w.head.republic_id, blocks.last())
            &&& forall|i: int|
                0 <= i < blocks.len() ==> (#[trigger] blocks[i]).height == blocks[0].height + i
            &&& w.floor is Some ==> w.floor->0 <= w.head.height
            &&& forall|id: u64|
                #[trigger] w.seen.contains(id) <==> w.running.consumed_ids.contains(id)
            &&& fold::folded_through(
                fold_base(s, blocks[0]),
                blocks.skip(1),
                w.head.height,
            ) == Ok::<SummaryV, FaultV>(w.running)
            &&& s.checkpoint_blob is Some ==> w.head.republic_id == s.rid() && blocks[0].height
                == s.checkpoint_blob->0.upto + 1 && blocks[0].change is Checkpoint
            &&& s.checkpoint_blob is None ==> (w.head.republic_id == signers::founded_head(
                blocks[0],
            )->Ok_0.republic_id && fold::founded_state(blocks[0].change) is Some)
        }),
    decreases blocks.len(),
{
    let w = s.walked_here(blocks)->Ok_0;
    if blocks.len() == 1 {
        assert(blocks.skip(1) =~= Seq::empty());
        match s.checkpoint_blob {
            None => {
                match blocks[0].change {
                    ChangeV::Genesis { identities, .. } => {
                        lemma_self_anchored(identities, identities);
                    },
                    _ => {},
                }
            },
            Some(blob) => {
                assert forall|id: u64|
                    #[trigger] w.seen.contains(id) <==> w.running.consumed_ids.contains(id) by {
                    assert(w.seen == blob.consumed_ids.to_set());
                }
            },
        }
    } else {
        let front = blocks.drop_last();
        let block = blocks.last();
        assert(blocks =~= front.push(block));
        lemma_here_push(s, front, block);
        lemma_walk_facts(s, front);
        let v = s.walked_here(front)->Ok_0;
        chain_laws::lemma_step_facts(v, block);
        lemma_step_rootable(v, block);
        assert(front[0] == blocks[0]);
        assert(blocks.skip(1) =~= front.skip(1).push(block));
        assert forall|i: int| 0 <= i < blocks.len() implies (#[trigger] blocks[i]).height
            == blocks[0].height + i by {
            if i < front.len() {
                assert(front[i] == blocks[i]);
            } else {
                assert(front[front.len() - 1] == front.last());
            }
        }
        assert forall|id: u64|
            #[trigger] w.seen.contains(id) <==> w.running.consumed_ids.contains(id) by {
            match signers::consumed_by(block.change) {
                Some(x) => {
                    lemma_contains_push(v.running.consumed_ids, x, id);
                },
                None => {},
            }
        }
        assert forall|i: int| 0 <= i < front.skip(1).len() implies (#[trigger] front.skip(1)[i]).height
            <= v.head.height by {
            assert(front.skip(1)[i] == front[i + 1]);
        }
        let base = fold_base(s, blocks[0]);
        chain_laws::lemma_folded_upto(base, front.skip(1), v.head.height, w.head.height);
        chain_laws::lemma_folded_push(base, front.skip(1), block, w.head.height);
    }
}

/// The anchors and the relay declarations that a walk carries are those of the
/// blocks.
proof fn lemma_walk_addresses(s: StateV, blocks: Seq<BlockV>)
    requires
        s.walked_here(blocks) is Ok,
        blocks.len() > 0,
    ensures
        s.walked_here(blocks)->Ok_0.running.anchors == (StateV {
            blocks,
            ..s
        }).projected_anchors(),
        s.walked_here(blocks)->Ok_0.running.member_relays == (StateV {
            blocks,
            ..s
        }).projected_declarations(),
    decreases blocks.len(),
{
    let front = blocks.drop_last();
    let block = blocks.last();
    if blocks.len() == 1 {
        assert(blocks.skip(1) =~= Seq::empty());
        assert(front =~= Seq::empty());
        let w = s.walked_here(blocks)->Ok_0;
        assert(w.running == fold_base(s, blocks[0]));
        assert(block.change is Genesis || block.change is Checkpoint);
        let base = fold_base(s, blocks[0]);
        assert(history::anchors_through(base.anchors, front) == base.anchors);
        assert(history::declarations_through(base.member_relays, front) == base.member_relays);
    } else {
        assert(blocks =~= front.push(block));
        lemma_here_push(s, front, block);
        lemma_walk_addresses(s, front);
        chain_laws::lemma_step_facts(s.walked_here(front)->Ok_0, block);
    }
}

/// A holder whose chain verifies never trusts a wrong walk: the kept one,
/// where it is used, is what walking the whole chain again gives.
pub proof fn a_kept_walk_is_never_wrong(s: StateV)
    requires
        sound(s),
        s.head is Some,
    ensures
        s.own_walk() == s.walked_here(s.blocks),
{
    if s.walk is Some && walk::describes_chain(s.walk->0, s.blocks, s.covered()) {
        if outlived(s) {
            text::lemma_before_irreflexive(s.walk->0.head.hash);
        }
    }
}

/// Do two states agree on everything that soundness speaks of?
pub open spec fn same_holding(a: StateV, b: StateV) -> bool {
    &&& a.head == b.head
    &&& a.blocks == b.blocks
    &&& a.walk == b.walk
    &&& a.checkpoint_blob == b.checkpoint_blob
    &&& a.rid() == b.rid()
}

/// What leaves the chain and the republic alone keeps a holder sound.
proof fn lemma_same_holding(a: StateV, b: StateV)
    requires
        sound(a),
        same_holding(a, b),
    ensures
        sound(b),
{
}

/// What appending does to the chain and to the kept walk.
pub proof fn lemma_appending_fields(s: StateV, block: BlockV)
    requires
        s.accepts(block),
    ensures
        s.appending(block).blocks == s.blocks.push(block),
        s.appending(block).head == Some(s.extension(block)->Ok_0),
        s.appending(block).walk == Some(walk::stepped(s.own_walk()->Ok_0, block)->Ok_0),
        s.appending(block).checkpoint_blob == s.checkpoint_blob,
        s.appending(block).rid() == s.rid(),
{
    sealing::lemma_appended_head(s, block);
}

/// A block that fits keeps a holder sound, and so does one that does not.
pub proof fn appending_keeps_the_holder_sound(s: StateV, block: BlockV)
    requires
        sound(s),
    ensures
        sound(s.appending(block)),
        s.accepts(block) ==> s.blocks.len() > 0 && s.head is Some,
{
    let after = s.appending(block);
    match s.head {
        None => {},
        Some(h) => {
            a_kept_walk_is_never_wrong(s);
            lemma_walk_facts(s, s.blocks);
            let w = s.walked_here(s.blocks)->Ok_0;
            if s.accepts(block) {
                lemma_appending_fields(s, block);
                lemma_here_push(s, s.blocks, block);
                chain_laws::lemma_step_facts(w, block);
                assert(after.walked_here(after.blocks) == s.walked_here(after.blocks));
            }
        },
    }
}

/// The blocks from a height on are what is left of the chain from that block
/// on.
proof fn lemma_blocks_from(blocks: Seq<BlockV>, k: int)
    requires
        0 <= k < blocks.len(),
        forall|i: int|
            0 <= i < blocks.len() ==> (#[trigger] blocks[i]).height == blocks[0].height + i,
    ensures
        sealing::blocks_from(blocks, blocks[k].height) == blocks.skip(k),
    decreases blocks.len(),
{
    let front = blocks.drop_last();
    let h = blocks[k].height;
    assert(blocks.last() == blocks[blocks.len() - 1]);
    if k < front.len() {
        assert forall|i: int| 0 <= i < front.len() implies (#[trigger] front[i]).height
            == front[0].height + i by {
            assert(front[i] == blocks[i]);
        }
        assert(front[k] == blocks[k]);
        lemma_blocks_from(front, k);
        assert(front.skip(k).push(blocks.last()) =~= blocks.skip(k));
    } else {
        assert forall|i: int| 0 <= i < front.len() implies (#[trigger] front[i]).height < h by {
            assert(front[i] == blocks[i]);
        }
        lemma_none_from(front, h);
        assert(Seq::<BlockV>::empty().push(blocks.last()) =~= blocks.skip(k));
    }
}

/// Where all blocks are lower, none is left from a height on.
proof fn lemma_none_from(blocks: Seq<BlockV>, height: u64)
    requires
        forall|i: int| 0 <= i < blocks.len() ==> (#[trigger] blocks[i]).height < height,
    ensures
        sealing::blocks_from(blocks, height) == Seq::<BlockV>::empty(),
    decreases blocks.len(),
{
    if blocks.len() > 0 {
        let front = blocks.drop_last();
        assert forall|i: int| 0 <= i < front.len() implies (#[trigger] front[i]).height < height by {
            assert(front[i] == blocks[i]);
        }
        assert(blocks.last() == blocks[blocks.len() - 1]);
        lemma_none_from(front, height);
    } else {
        assert(blocks =~= Seq::empty());
    }
}

/// Walking a chain is walking on from where its beginning was walked to.
proof fn lemma_here_split(s: StateV, first: Seq<BlockV>, rest: Seq<BlockV>)
    requires
        first.len() > 0,
    ensures
        s.walked_here(first + rest) == (match s.walked_here(first) {
            Err(e) => Err(e),
            Ok(w) => walk::walked_on(w, rest),
        }),
    decreases rest.len(),
{
    if rest.len() == 0 {
        assert(first + rest =~= first);
    } else {
        let front = rest.drop_last();
        let block = rest.last();
        assert(rest =~= front.push(block));
        assert(first + rest =~= (first + front).push(block));
        lemma_here_split(s, first, front);
        lemma_here_push(s, first + front, block);
        match s.walked_here(first) {
            Err(e) => {},
            Ok(w) => {
                chain_laws::lemma_walked_on_push(w, front, block);
            },
        }
    }
}

/// Two walks that went different ways to the same head and the same content.
pub open spec fn alike(a: WalkV, b: WalkV) -> bool {
    &&& a.head == b.head
    &&& a.seen == b.seen
    &&& chain_laws::same_content(a.running, b.running)
    &&& a.floor is Some ==> a.floor->0 <= a.head.height
    &&& b.floor is Some ==> b.floor->0 <= b.head.height
}

/// A block that fits the one fits the other.
proof fn lemma_alike_step(a: WalkV, b: WalkV, block: BlockV)
    requires
        alike(a, b),
        walk::stepped(a, block) is Ok,
    ensures
        walk::stepped(b, block) is Ok,
        alike(walk::stepped(a, block)->Ok_0, walk::stepped(b, block)->Ok_0),
{
    chain_laws::lemma_step_facts(a, block);
    chain_laws::lemma_same_sorted(a.running.consumed_ids, b.running.consumed_ids);
    let one = seq![block];
    chain_laws::lemma_same_content_folds(a.running, b.running, one, block.height);
    assert(one[0] == block);
    assert(one.skip(1) =~= Seq::empty());
    match (fold::folded(a.running, block), fold::folded(b.running, block)) {
        (Ok(x), Ok(y)) => {
            assert(fold::folded_through(x, one.skip(1), block.height) == Ok::<SummaryV, FaultV>(
                x,
            ));
            assert(fold::folded_through(y, one.skip(1), block.height) == Ok::<SummaryV, FaultV>(
                y,
            ));
        },
        _ => {},
    }
    match block.change {
        ChangeV::Checkpoint { upto, .. } => {
            assert(fold::cut_at(a.running, upto) == fold::cut_at(b.running, upto));
        },
        _ => {},
    }
    reveal(walk::stepped);
    reveal(signers::next_head);
}

/// A run of blocks that fits the one fits the other.
proof fn lemma_alike_run(a: WalkV, b: WalkV, blocks: Seq<BlockV>)
    requires
        alike(a, b),
        walk::walked_on(a, blocks) is Ok,
    ensures
        walk::walked_on(b, blocks) is Ok,
        alike(walk::walked_on(a, blocks)->Ok_0, walk::walked_on(b, blocks)->Ok_0),
    decreases blocks.len(),
{
    if blocks.len() > 0 {
        lemma_alike_step(a, b, blocks[0]);
        lemma_alike_run(
            walk::stepped(a, blocks[0])->Ok_0,
            walk::stepped(b, blocks[0])->Ok_0,
            blocks.skip(1),
        );
    }
}

/// The summary that the holder takes at a cut in its chain is the one that the
/// walk below the cut carries, and the cut with what is above it verifies
/// under that summary to the same head.
proof fn lemma_cut_roots_the_rest(s: StateV, k: int)
    requires
        sound(s),
        0 < k < s.blocks.len(),
        s.blocks[k].change is Checkpoint,
    ensures
        ({
            let upto = s.blocks[k].change->Checkpoint_upto;
            &&& s.own_summary(upto) is Ok
            &&& s.own_summary(upto)->Ok_0.anchors == (StateV {
                blocks: s.blocks.take(k),
                ..s
            }).projected_anchors()
            &&& s.own_summary(upto)->Ok_0.member_relays == (StateV {
                blocks: s.blocks.take(k),
                ..s
            }).projected_declarations()
            &&& walk::walked_suffix(
                s.own_summary(upto)->Ok_0,
                s.blocks.skip(k),
                s.rid(),
            ) is Ok
            &&& walk::walked_suffix(
                s.own_summary(upto)->Ok_0,
                s.blocks.skip(k),
                s.rid(),
            )->Ok_0.head == s.head->0
            &&& alike(
                s.walked_here(s.blocks)->Ok_0,
                walk::walked_suffix(
                    s.own_summary(upto)->Ok_0,
                    s.blocks.skip(k),
                    s.rid(),
                )->Ok_0,
            )
        }),
{
    let block = s.blocks[k];
    let front = s.blocks.take(k);
    let rest = s.blocks.skip(k + 1);
    let upto = block.change->Checkpoint_upto;
    let through = front.push(block);
    assert(s.blocks =~= through + rest);
    lemma_here_split(s, through, rest);
    lemma_here_push(s, front, block);
    lemma_walk_facts(s, s.blocks);
    lemma_walk_facts(s, front);
    let v = s.walked_here(front)->Ok_0;
    let w = s.walked_here(through)->Ok_0;
    chain_laws::lemma_step_facts(v, block);
    lemma_walk_addresses(s, front);
    // the summary below the cut
    let base = fold_base(s, front[0]);
    assert(s.blocks[0] == front[0]);
    let above = seq![block] + rest;
    assert(s.blocks.skip(1) =~= front.skip(1) + above);
    assert forall|i: int| 0 <= i < front.skip(1).len() implies (#[trigger] front.skip(1)[i]).height
        <= upto by {
        assert(front.skip(1)[i] == front[i + 1]);
    }
    chain_laws::lemma_folded_cut(base, front.skip(1), above, upto);
    match s.checkpoint_blob {
        None => {},
        Some(blob) => {
            assert(fold::folded(blob, s.blocks[0]) == Ok::<SummaryV, FaultV>(blob));
            assert(front[0].height <= upto);
        },
    }
    let cut = fold::cut_at(v.running, upto);
    assert(s.own_summary(upto) == Ok::<SummaryV, FaultV>(cut));
    // the cut under that summary
    assert(s.blocks =~= front + above);
    lemma_rid_of_beginning(s, front, above);
    assert(walk::anchor_fault(cut, block, s.rid()) is None);
    let rooted = walk::rooted_walk(cut, block);
    fold::sorting_orders_and_keeps(v.running.consumed_ids);
    assert(rooted.seen =~= w.seen) by {
        assert forall|id: u64| rooted.seen.contains(id) <==> w.seen.contains(id) by {
            lemma_sorted_contains(v.running.consumed_ids, id);
        }
    }
    assert(alike(w, rooted));
    lemma_alike_run(w, rooted, rest);
    assert(s.blocks.skip(k)[0] == block);
    assert(s.blocks.skip(k).skip(1) =~= rest);
}

/// Sorting keeps what a list holds.
proof fn lemma_sorted_contains(ids: Seq<u64>, id: u64)
    ensures
        fold::sorted_ids(ids).contains(id) <==> ids.contains(id),
{
    broadcast use group_to_multiset_ensures;

    fold::sorting_orders_and_keeps(ids);
    let sorted = fold::sorted_ids(ids);
    assert(sorted.to_multiset().count(id) == ids.to_multiset().count(id));
}

/// The beginning of a holder's chain is of the same republic.
proof fn lemma_rid_of_beginning(s: StateV, first: Seq<BlockV>, rest: Seq<BlockV>)
    requires
        sound(s),
        first.len() > 0,
        s.blocks == first + rest,
        s.walked_here(first) is Ok,
    ensures
        s.walked_here(first)->Ok_0.head.republic_id == s.rid(),
{
    lemma_walk_facts(s, s.blocks);
    lemma_walk_facts(s, first);
    assert(s.blocks[0] == first[0]);
}

/// Settling a block other than a cut leaves the chain alone.
pub proof fn lemma_settling_frame(s: StateV, block: BlockV)
    requires
        !(block.change is Checkpoint),
    ensures
        same_holding(s, s.block_settled(block)),
{
    match block.change {
        ChangeV::Membership { .. } => {
            sealing::lemma_membership_frame(s, block.change);
        },
        _ => {},
    }
}

/// Is the block one of the chain, above its anchor?
pub open spec fn above_anchor(s: StateV, block: BlockV) -> bool {
    exists|k: int| 0 < k < s.blocks.len() && s.blocks[k] == block
}

/// What settling a cut leaves of the chain.
proof fn lemma_settled_cut(s: StateV, k: int)
    requires
        sound(s),
        0 < k < s.blocks.len(),
        s.blocks[k].change is Checkpoint,
    ensures
        ({
            let after = s.block_settled(s.blocks[k]);
            let upto = s.blocks[k].change->Checkpoint_upto;
            &&& after.blocks == s.blocks.skip(k)
            &&& after.head == s.head
            &&& after.walk is None
            &&& after.checkpoint_blob == Some(s.own_summary(upto)->Ok_0)
            &&& after.rid() == s.rid()
        }),
{
    let block = s.blocks[k];
    let upto = block.change->Checkpoint_upto;
    lemma_cut_roots_the_rest(s, k);
    lemma_walk_facts(s, s.blocks);
    let ids = governance::ids_naming(s.proposal_changes, block.change);
    sealing::lemma_forgetting_frame(s, ids);
    let forgot = s.forgetting_each(ids);
    assert(forgot.own_summary(upto) == s.own_summary(upto));
    let cut = forgot.anchored_on(Some(s.own_summary(upto)->Ok_0));
    lemma_blocks_from(s.blocks, k);
    let pruned = StateV { blocks: sealing::blocks_from(cut.blocks, block.height), ..cut };
    sealing::lemma_chain_applied_frame(pruned);
}

/// Does the summary under a lone anchor list its ids in order? Any summary that
/// a holder cuts does.
pub open spec fn anchor_is_ordered(s: StateV) -> bool {
    s.blocks.len() == 1 && s.checkpoint_blob is Some ==> fold::sorted_ids(
        s.checkpoint_blob->0.consumed_ids,
    ) == s.checkpoint_blob->0.consumed_ids
}

/// Settling a lone anchor once more changes nothing of the chain.
proof fn lemma_lone_cut_settles(s: StateV)
    requires
        sound(s),
        s.blocks.len() == 1,
        s.blocks[0].change is Checkpoint,
        anchor_is_ordered(s),
    ensures
        sound(s.block_settled(s.blocks[0])),
{
    let block = s.blocks[0];
    let upto = block.change->Checkpoint_upto;
    lemma_walk_facts(s, s.blocks);
    let ids = governance::ids_naming(s.proposal_changes, block.change);
    sealing::lemma_forgetting_frame(s, ids);
    let forgot = s.forgetting_each(ids);
    match s.checkpoint_blob {
        Some(blob) => {
            assert(fold::cut_at(blob, upto) == blob);
            assert(forgot.own_summary(upto) == Ok::<SummaryV, FaultV>(blob));
            lemma_blocks_from(s.blocks, 0);
            assert(s.blocks.skip(0) =~= s.blocks);
            let cut = forgot.anchored_on(Some(blob));
            let pruned = StateV {
                blocks: sealing::blocks_from(cut.blocks, block.height),
                ..cut
            };
            sealing::lemma_chain_applied_frame(pruned);
            assert(s.block_settled(block).walked_here(s.blocks) == s.walked_here(s.blocks));
        },
        None => {},
    }
}

/// Settling a block of the chain keeps a holder sound. Where it is a cut, the
/// chain is pruned to it, and what is left verifies under the summary that was
/// cut, to the same head.
pub proof fn settling_keeps_the_holder_sound(s: StateV, block: BlockV)
    requires
        sound(s),
        block.change is Checkpoint ==> above_anchor(s, block),
    ensures
        sound(s.block_settled(block)),
{
    if !(block.change is Checkpoint) {
        lemma_settling_frame(s, block);
        lemma_same_holding(s, s.block_settled(block));
    } else {
        let k = choose|k: int| 0 < k < s.blocks.len() && s.blocks[k] == block;
        lemma_cut_roots_the_rest(s, k);
        lemma_settled_cut(s, k);
    }
}

/// What several blocks re-anchor is what the later ones re-anchor on top of
/// the earlier ones.
proof fn lemma_addresses_split(
    anchors: Seq<AnchorV>,
    declared: Seq<DeclarationV>,
    first: Seq<BlockV>,
    rest: Seq<BlockV>,
)
    ensures
        history::anchors_through(anchors, first + rest) == history::anchors_through(
            history::anchors_through(anchors, first),
            rest,
        ),
        history::declarations_through(declared, first + rest) == history::declarations_through(
            history::declarations_through(declared, first),
            rest,
        ),
    decreases rest.len(),
{
    if rest.len() == 0 {
        assert(first + rest =~= first);
    } else {
        assert((first + rest).drop_last() =~= first + rest.drop_last());
        assert((first + rest).last() == rest.last());
        lemma_addresses_split(anchors, declared, first, rest.drop_last());
    }
}

/// A cut keeps every address: the holder that settled it addresses each seat,
/// and knows its relays, as before.
pub proof fn a_cut_keeps_every_address(s: StateV, cut: BlockV)
    requires
        sound(s),
        cut.change is Checkpoint,
        above_anchor(s, cut),
    ensures
        s.block_settled(cut).projected_anchors() == s.projected_anchors(),
        s.block_settled(cut).projected_declarations() == s.projected_declarations(),
{
    let k = choose|k: int| 0 < k < s.blocks.len() && s.blocks[k] == cut;
    lemma_cut_roots_the_rest(s, k);
    lemma_settled_cut(s, k);
    let front = s.blocks.take(k);
    lemma_addresses_split(
        match s.checkpoint_blob {
            Some(blob) => blob.anchors,
            None => Seq::empty(),
        },
        match s.checkpoint_blob {
            Some(blob) => blob.member_relays,
            None => Seq::empty(),
        },
        front,
        s.blocks.skip(k),
    );
    assert(s.blocks =~= front + s.blocks.skip(k));
}

/// Pruning changes nothing of what fits: the holder that settled a cut accepts
/// exactly the blocks that it accepted before, and to the same head.
pub proof fn pruning_changes_nothing_of_what_fits(s: StateV, cut: BlockV, next: BlockV)
    requires
        sound(s),
        cut.change is Checkpoint,
        above_anchor(s, cut),
    ensures
        s.block_settled(cut).accepts(next) == s.accepts(next),
        s.accepts(next) ==> s.block_settled(cut).extension(next) == s.extension(next),
{
    let k = choose|k: int| 0 < k < s.blocks.len() && s.blocks[k] == cut;
    lemma_cut_roots_the_rest(s, k);
    settling_keeps_the_holder_sound(s, cut);
    lemma_settled_cut(s, k);
    let after = s.block_settled(cut);
    a_kept_walk_is_never_wrong(s);
    sealing::lemma_block_settled_head(s, cut);
    a_kept_walk_is_never_wrong(after);
    let a = s.walked_here(s.blocks)->Ok_0;
    let b = after.walked_here(after.blocks)->Ok_0;
    assert(alike(a, b));
    assert(alike(b, a));
    if walk::stepped(a, next) is Ok {
        lemma_alike_step(a, b, next);
    }
    if walk::stepped(b, next) is Ok {
        lemma_alike_step(b, a, next);
    }
}

/// Signing keeps a holder sound, whatever it seals.
pub proof fn signing_keeps_the_holder_sound(s: StateV, id: u64)
    requires
        sound(s),
    ensures
        sound(s.signing(id)),
    decreases s.room(), 2nat, 0nat,
{
    if s.can_sign(id) {
        lemma_same_holding(s, s.voicing(id));
        committing_keeps_the_holder_sound(s.voicing(id), id);
    }
}

/// Sealing what has gathered the threshold keeps a holder sound.
pub proof fn committing_keeps_the_holder_sound(s: StateV, id: u64)
    requires
        sound(s),
    ensures
        sound(s.committing(id)),
    decreases s.room(), 1nat, 0nat,
{
    match s.sealable(id) {
        Some(block) => {
            lemma_sealing_sound(s, block, id);
        },
        None => {},
    }
}

#[verifier::rlimit(40)]
proof fn lemma_sealing_sound(s: StateV, block: BlockV, id: u64)
    requires
        sound(s),
    ensures
        sound(s.sealing(block, id)),
    decreases (u64::MAX - block.height) as nat, 6nat, 0nat,
{
    appending_keeps_the_holder_sound(s, block);
    if s.accepts(block) {
        sealing::lemma_appended_head(s, block);
        let appended = s.appending(block).persisting();
        lemma_same_holding(s.appending(block), appended);
        assert(appended.blocks[s.blocks.len() as int] == block);
        lemma_after_applied_sound(appended, block);
        sealing::lemma_after_applied_rises(appended, block);
        let settled = appended.after_applied(block).forgetting(id);
        lemma_same_holding(appended.after_applied(block), settled);
        lemma_same_holding(settled, settled.doing(EffectV::Sealed { id, block }));
        let noted = settled.announced(block, id);
        lemma_same_holding(settled, noted);
        if noted.height() >= block.height {
            lemma_auto_checkpointing_sound(noted);
        }
    }
}

proof fn lemma_after_applied_sound(s: StateV, block: BlockV)
    requires
        sound(s),
        block.change is Checkpoint ==> above_anchor(s, block),
    ensures
        sound(s.after_applied(block)),
    decreases s.room(), 5nat, 0nat,
{
    settling_keeps_the_holder_sound(s, block);
    sealing::lemma_block_settled_head(s, block);
    moving_the_votes_keeps_the_holder_sound(s.block_settled(block));
}

/// Moving the votes to a new height keeps a holder sound.
pub proof fn moving_the_votes_keeps_the_holder_sound(s: StateV)
    requires
        sound(s),
    ensures
        sound(s.rebasing()),
    decreases s.room(), 4nat, 0nat,
{
    match s.target() {
        None => {},
        Some(target) => {
            let going = StateV { votes_wait: false, ..s };
            let cuts = sealing::stale_cuts(s.proposal_changes, s.height());
            sealing::lemma_sweeping_frame(going, cuts);
            lemma_same_holding(s, going.sweeping(cuts));
            lemma_resigning_sound(
                going.sweeping(cuts),
                sealing::ids_below(s.pending_sigs, target),
            );
        },
    }
}

proof fn lemma_resigning_sound(s: StateV, ids: Seq<u64>)
    requires
        sound(s),
    ensures
        sound(s.resigning(ids)),
    decreases s.room(), 3nat, ids.len(),
{
    if ids.len() > 0 && s.vote_waits(ids[0]) {
        lemma_same_holding(s, StateV { votes_wait: true, ..s });
    } else if ids.len() > 0 {
        let cleared = StateV { pending_sigs: table::del(s.pending_sigs, ids[0]), ..s };
        lemma_same_holding(s, cleared);
        signing_keeps_the_holder_sound(cleared, ids[0]);
        sealing::lemma_signing_rises(cleared, ids[0]);
        let signed = if s.own_approvals.contains(ids[0]) && s.card_state(ids[0]) == Some(
            ProposalState::Proposed,
        ) {
            cleared.signing(ids[0])
        } else {
            cleared
        };
        lemma_resigning_sound(signed, ids.skip(1));
    }
}

proof fn lemma_auto_checkpointing_sound(s: StateV)
    requires
        sound(s),
    ensures
        sound(s.auto_checkpointing()),
    decreases s.room(), 4nat, 0nat,
{
    if s.owes_checkpoint() {
        proposing_a_cut_keeps_the_holder_sound(s);
    }
}

/// Proposing a cut keeps a holder sound.
pub proof fn proposing_a_cut_keeps_the_holder_sound(s: StateV)
    requires
        sound(s),
    ensures
        sound(s.proposing_checkpoint()),
    decreases s.room(), 3nat, 0nat,
{
    if s.checkpoint_outcome() is Ok {
        lemma_same_holding(s, s.checkpoint_announced());
        if s.self_cosign {
            signing_keeps_the_holder_sound(s.checkpoint_announced(), s.next_id);
        }
    }
}

/// Hearing what came of a write keeps a holder sound.
pub proof fn hearing_of_a_write_keeps_the_holder_sound(
    s: StateV,
    durable: bool,
    block: BlockV,
    id: u64,
)
    requires
        sound(s),
    ensures
        sound(s.seal_written(durable, block, id)),
{
    lemma_same_holding(s, s.announced(block, id));
    lemma_auto_checkpointing_sound(s.announced(block, id));
}

/// Hearing an approval keeps a holder sound, whatever it seals.
pub proof fn hearing_an_approval_keeps_the_holder_sound(
    s: StateV,
    id: u64,
    height: u64,
    att: AttestationV,
)
    requires
        sound(s),
    ensures
        sound(s.approval_heard(id, height, att)),
{
    if !(att.sig.len() == 0 || (s.target() is Some && height > s.target()->0) || !s.plausible(id)) {
        let verified = s.approves(id, height, att);
        let collected = s.collecting(id, height, att, verified);
        let marked = if verified {
            collected.marking(id, att.member)
        } else {
            collected
        };
        lemma_same_holding(s, marked);
        committing_keeps_the_holder_sound(marked, id);
    }
}

/// Hearing a proposed cut keeps a holder sound.
pub proof fn hearing_a_cut_keeps_the_holder_sound(
    s: StateV,
    id: u64,
    upto: u64,
    state_hash: Seq<char>,
)
    requires
        sound(s),
    ensures
        sound(s.cut_heard(id, upto, state_hash)),
{
    if s.plausible(id) {
        let minted = s.minting_past(id);
        lemma_same_holding(s, minted);
        if s.takes_cut(id, upto, state_hash) {
            let registered = StateV {
                proposal_changes: table::put(
                    minted.proposal_changes,
                    id,
                    ChangeV::Checkpoint { upto, state_hash },
                ),
                ..minted
            };
            lemma_same_holding(minted, registered);
            signing_keeps_the_holder_sound(registered, id);
        }
    }
}

/// Proposing a membership change keeps a holder sound.
proof fn lemma_proposing_membership_sound(s: StateV, change: ChangeV)
    requires
        sound(s),
    ensures
        sound(s.proposing_membership(change)),
{
    lemma_same_holding(s, s.membership_announced(change));
    signing_keeps_the_holder_sound(s.membership_announced(change), s.next_id);
}

/// Answering a member that asks to return keeps a holder sound.
pub proof fn answering_a_return_keeps_the_holder_sound(s: StateV, request: RequestV)
    requires
        sound(s),
    ensures
        sound(s.restoring(request)),
{
    if s.restore_refusal(request) is None {
        let listed = StateV {
            pending_recovery: recovery::recoveries_without(
                s.pending_recovery,
                request.member,
            ).push(
                RecoveryV {
                    member: request.member,
                    ticketed: request.ticketed,
                    key_package: request.key_package,
                    reply: request.reply,
                },
            ),
            ..s
        };
        lemma_same_holding(s, listed);
        lemma_proposing_membership_sound(listed, s.restore_change(request));
    }
}

/// Hearing a membership proposal keeps a holder sound.
pub proof fn hearing_a_membership_proposal_keeps_the_holder_sound(
    s: StateV,
    id: u64,
    change: ChangeV,
    canonical_anchor: bool,
)
    requires
        sound(s),
    ensures
        sound(s.membership_heard(id, change, canonical_anchor)),
{
    if s.admits_membership(id, change) {
        let minted = s.minting_past(id);
        let registered = (StateV {
            proposal_changes: table::put(minted.proposal_changes, id, change),
            ..minted
        }).reverifying(id);
        lemma_same_holding(s, registered);
        signing_keeps_the_holder_sound(registered, id);
    }
}

/// Hearing a proposal keeps a holder sound.
pub proof fn hearing_a_proposal_keeps_the_holder_sound(
    s: StateV,
    id: u64,
    surface: Surface,
    payload: PayloadV,
    by: Seq<char>,
)
    requires
        sound(s),
    ensures
        sound(s.proposed_here(id, surface, payload, by)),
{
    lemma_same_holding(s, s.proposed_here(id, surface, payload, by));
}

/// A holder that knows nothing yet is sound.
pub proof fn a_new_holder_is_sound()
    ensures
        sound(StateV::fresh()),
{
}

/// Adopting a chain keeps a holder sound: one that verifies for its own
/// republic is taken over whole, any other leaves no chain at all.
pub proof fn adopting_keeps_the_holder_sound(s: StateV, chain: Seq<BlockV>)
    requires
        s.walked_here(chain) is Ok ==> s.walked_here(chain)->Ok_0.head.republic_id == s.rid(),
    ensures
        sound(s.adopting(chain)),
{
    match s.walked_here(chain) {
        Ok(w) => {
            let taken = StateV { blocks: chain, head: Some(w.head), walk: Some(w), ..s };
            assert(taken.walked_here(chain) == s.walked_here(chain));
            lemma_same_holding(taken, taken.minting_past_chain());
            sealing::lemma_chain_applied_frame(taken.minting_past_chain());
            lemma_same_holding(taken, s.adopting(chain));
        },
        Err(e) => {},
    }
}

/// Telling of a suffix leaves the chain alone.
proof fn lemma_suffix_told_frame(s: StateV, blocks: Seq<BlockV>)
    ensures
        same_holding(s, s.suffix_told(blocks)),
        sealing::same_sync(s.suffix_told(blocks), s),
    decreases blocks.len(),
{
    if blocks.len() > 0 {
        lemma_suffix_told_frame(s, blocks.drop_last());
    }
}

/// Trying a served summary keeps a holder sound: it is anchored on only where
/// all of what is held above it verifies.
pub proof fn trying_a_summary_keeps_the_holder_sound(s: StateV)
    requires
        sound(s),
    ensures
        sound(s.re_anchoring()),
{
    match s.pending_served_blob {
        None => {},
        Some(blob) => {
            let dropped = StateV { pending_served_blob: None, ..s };
            lemma_same_holding(s, dropped);
            if !((s.head is Some && s.head->0.height > blob.upto) || blob.upto == u64::MAX)
                && table::has(s.pending_blocks, (blob.upto + 1) as u64) {
                let suffix = checkpoint::run_from(
                    s.pending_blocks,
                    (blob.upto + 1) as u64,
                );
                match walk::walked_suffix(blob, suffix, s.rid()) {
                    Ok(w) => {
                        let anchored = StateV {
                            blocks: suffix,
                            head: Some(w.head),
                            pending_served_blob: None,
                            pending_blocks: table::above(s.pending_blocks, w.head.height),
                            ..s.anchored_on(Some(blob))
                        };
                        lemma_walk_facts(anchored, suffix);
                        assert(sound(anchored));
                        sealing::lemma_chain_applied_frame(anchored);
                        lemma_same_holding(anchored, anchored.chain_applied());
                        let told = anchored.chain_applied().suffix_told(suffix);
                        lemma_suffix_told_frame(anchored.chain_applied(), suffix);
                        lemma_same_holding(anchored.chain_applied(), told);
                        let refreshed = if checkpoint::touches_org(suffix) {
                            told.doing(EffectV::OrgApplied)
                        } else {
                            told
                        };
                        lemma_same_holding(told, refreshed);
                        moving_the_votes_keeps_the_holder_sound(refreshed);
                        lemma_same_holding(refreshed.rebasing(), s.re_anchoring());
                    },
                    Err(e) => {},
                }
            }
        },
    }
}

/// Hearing a served summary keeps a holder sound.
pub proof fn hearing_a_summary_keeps_the_holder_sound(s: StateV, blob: SummaryV)
    requires
        sound(s),
    ensures
        sound(s.summary_heard(blob)),
{
    if s.wants_summary(blob) {
        let waiting = StateV { pending_served_blob: Some(blob), ..s };
        lemma_same_holding(s, waiting);
        trying_a_summary_keeps_the_holder_sound(waiting);
    }
}

/// Applying the next block keeps a holder sound.
pub proof fn lemma_next_applied_sound(s: StateV, block: BlockV)
    requires
        sound(s),
    ensures
        sound(s.next_applied(block)),
{
    appending_keeps_the_holder_sound(s, block);
    if s.accepts(block) {
        sealing::lemma_appended_head(s, block);
        let appended = s.appending(block);
        assert(appended.blocks[s.blocks.len() as int] == block);
        lemma_after_applied_sound(appended, block);
        lemma_same_holding(appended.after_applied(block), s.next_applied(block));
    }
}

/// Applying what was held keeps a holder sound.
pub proof fn draining_keeps_the_holder_sound(s: StateV)
    requires
        sound(s),
    ensures
        sound(s.draining()),
    decreases s.pending_blocks.len(),
{
    lemma_same_holding(s, StateV { drain_waits: true, ..s });
    match s.target() {
        None => {
            lemma_same_holding(s, s.trimmed());
        },
        Some(next) => match table::get(s.pending_blocks, next) {
            None => {
                lemma_same_holding(s, s.trimmed());
            },
            Some(block) => {
                let taken = StateV { pending_blocks: table::del(s.pending_blocks, next), ..s };
                sync::lemma_removal_shrinks(s.pending_blocks, next);
                sync::lemma_next_applied_sync(taken, block);
                lemma_same_holding(s, taken);
                lemma_next_applied_sound(taken, block);
                let applied = taken.next_applied(block);
                if taken.accepts(block) {
                    draining_keeps_the_holder_sound(applied);
                } else {
                    lemma_same_holding(applied, applied.trimmed());
                }
            },
        },
    }
}

/// Applying what was held and handing it to the storage keeps a holder sound.
proof fn lemma_drained_sound(s: StateV)
    requires
        sound(s),
    ensures
        sound(s.drained()),
{
    let going = StateV { drain_waits: false, ..s };
    lemma_same_holding(s, going);
    draining_keeps_the_holder_sound(going);
    lemma_same_holding(going.draining(), going.draining().persisting());
}

/// Taking cards back to the vote leaves the chain alone.
proof fn lemma_reopened_frame(s: StateV, dropped: Seq<BlockV>, kept: Seq<BlockV>)
    ensures
        same_holding(s, s.reopened_each(dropped, kept)),
    decreases dropped.len(),
{
    if dropped.len() > 0 {
        lemma_reopened_frame(s, dropped.drop_last(), kept);
    }
}

/// Would the block, as a first one, start a chain of a republic that is not the
/// holder's?
pub open spec fn founds_another(s: StateV, block: BlockV) -> bool {
    &&& s.blocks.len() <= 1
    &&& s.walked_here(seq![block]) is Ok
    &&& s.walked_here(seq![block])->Ok_0.head.republic_id != s.rid()
}

/// Replacing the tip by a block that wins it keeps a holder sound. Its kept
/// walk is then outlived: the hash of the tip only ever falls. Left out are the
/// founding of another republic that wins against a lone founding, and a lone
/// anchor whose summary lists its ids out of order.
pub proof fn replacing_the_tip_keeps_the_holder_sound(s: StateV, block: BlockV)
    requires
        sound(s),
        s.blocks.len() > 0,
        !founds_another(s, block),
        anchor_is_ordered(s),
        text::before(
            signers::block_hash_of(s.rid(), block),
            signers::block_hash_of(s.rid(), s.blocks.last()),
        ),
    ensures
        sound(s.tip_replaced(block)),
{
    let front = s.blocks.drop_last();
    let old_tip = s.blocks.last();
    let swapped = front.push(block);
    match s.walked_here(swapped) {
        Err(e) => {},
        Ok(w) => {
            let taken = StateV {
                blocks: swapped,
                head: Some(w.head),
                head_moved_at: s.now,
                ..s
            };
            assert(s.blocks =~= front.push(old_tip));
            assert(s.blocks =~= front + seq![old_tip]);
            lemma_walk_facts(s, s.blocks);
            lemma_walk_facts(s, swapped);
            if front.len() > 0 {
                lemma_here_push(s, front, old_tip);
                lemma_here_push(s, front, block);
                lemma_rid_of_beginning(s, front, seq![old_tip]);
                chain_laws::lemma_step_facts(s.walked_here(front)->Ok_0, block);
            } else {
                assert(swapped =~= seq![block]);
            }
            let x = signers::block_hash_of(s.rid(), block);
            let y = signers::block_hash_of(s.rid(), old_tip);
            if s.walk is Some {
                if outlived(s) {
                    text::lemma_before_transitive(x, y, s.walk->0.head.hash);
                }
                assert(outlived(taken));
            }
            assert(taken.walked_here(swapped) == s.walked_here(swapped));
            assert(sound(taken));
            sealing::lemma_chain_applied_frame(taken);
            let applied = taken.chain_applied();
            lemma_same_holding(taken, applied);
            let back = match signers::consumed_by(old_tip.change) {
                Some(id) => applied.reopened(id),
                None => applied,
            };
            lemma_same_holding(applied, back);
            assert(back.blocks[front.len() as int] == block);
            if front.len() == 0 && block.change is Checkpoint {
                lemma_lone_cut_settles(back);
                sealing::lemma_block_settled_head(back, block);
                moving_the_votes_keeps_the_holder_sound(back.block_settled(block));
            } else {
                lemma_after_applied_sound(back, block);
            }
            lemma_same_holding(back.after_applied(block), s.tip_replaced(block));
        },
    }
}

/// Is every cut among the blocks still held, above the anchor, when its turn
/// comes? It is not where the holder itself seals a later cut in between.
pub open spec fn cuts_stay_held(s: StateV, blocks: Seq<BlockV>) -> bool {
    forall|n: int|
        0 <= n < blocks.len() && (#[trigger] blocks[n]).change is Checkpoint ==> above_anchor(
            s.after_each(blocks.take(n)),
            blocks[n],
        )
}

/// What adopted blocks bring keeps a holder sound.
proof fn lemma_after_each_sound(s: StateV, blocks: Seq<BlockV>)
    requires
        sound(s),
        cuts_stay_held(s, blocks),
    ensures
        sound(s.after_each(blocks)),
    decreases blocks.len(),
{
    if blocks.len() > 0 {
        let front = blocks.drop_last();
        assert forall|n: int|
            0 <= n < front.len() && (#[trigger] front[n]).change is Checkpoint implies above_anchor(
            s.after_each(front.take(n)),
            front[n],
        ) by {
            assert(front[n] == blocks[n]);
            assert(front.take(n) =~= blocks.take(n));
        }
        lemma_after_each_sound(s, front);
        assert(blocks.take(blocks.len() - 1) =~= front);
        assert(blocks[blocks.len() - 1] == blocks.last());
        lemma_after_applied_sound(s.after_each(front), blocks.last());
    }
}

/// Signing several approvals keeps a holder sound.
proof fn lemma_signing_each_sound(s: StateV, ids: Seq<u64>)
    requires
        sound(s),
    ensures
        sound(s.signing_each(ids)),
    decreases ids.len(),
{
    if ids.len() > 0 {
        lemma_signing_each_sound(s, ids.drop_last());
        signing_keeps_the_holder_sound(s.signing_each(ids.drop_last()), ids.last());
    }
}

/// Signing what is open anew keeps a holder sound.
proof fn lemma_resigned_sound(s: StateV)
    requires
        sound(s),
    ensures
        sound(s.resigned_all()),
{
    lemma_same_holding(s, StateV { resign_waits: true, ..s });
    let cleared = StateV {
        pending_sigs: Seq::empty(),
        votes_wait: false,
        resign_waits: false,
        ..s
    };
    lemma_same_holding(s, cleared);
    lemma_signing_each_sound(cleared, sync::open_among(cleared.proposals, cleared.own_approvals));
}

/// Retiring wiki patches leaves the chain alone.
proof fn lemma_retiring_frame(s: StateV, ids: Seq<u64>)
    ensures
        same_holding(s, s.retiring_each(ids)),
    decreases ids.len(),
{
    if ids.len() > 0 {
        lemma_retiring_frame(s, ids.drop_last());
    }
}

/// Hearing which wiki patches are left behind keeps a holder sound, whatever
/// waited for it.
pub proof fn hearing_of_retired_patches_keeps_the_holder_sound(s: StateV, ids: Seq<u64>)
    requires
        sound(s),
    ensures
        sound(s.patches_settled(ids)),
{
    lemma_retiring_frame(s, ids);
    let told = StateV { wiki_asked: sync::lower(s.wiki_asked), ..s.retiring_each(ids) };
    lemma_same_holding(s, told);
    if told.wiki_asked == 0 {
        lemma_resigned_sound(told);
        moving_the_votes_keeps_the_holder_sound(told);
        let moved = if told.resign_waits {
            told.resigned_all()
        } else if told.votes_wait {
            told.rebasing()
        } else {
            told
        };
        lemma_drained_sound(moved);
    }
}

/// The holder right after it has taken the other branch over, with what its
/// own branch had decided back to the vote.
pub open spec fn switched(s: StateV, fork: u64, suffix: Seq<BlockV>) -> StateV {
    s.adopting(sync::blocks_below(s.blocks, fork) + suffix).reopened_each(
        sealing::blocks_from(s.blocks, fork),
        suffix,
    )
}

/// Does a re-base, if there is one, find every cut of the other branch still
/// held?
pub open spec fn rebase_is_plain(s: StateV) -> bool {
    match sync::fork_height(s.rid(), s.blocks, s.fork_candidates) {
        None => true,
        Some(fork) => {
            let suffix = sync::linked_run(s.rid(), s.fork_candidates, fork, None);
            s.walked_here(sync::blocks_below(s.blocks, fork) + suffix) is Ok ==> cuts_stay_held(
                switched(s, fork, suffix),
                suffix,
            )
        },
    }
}

/// Why those re-bases are left out: settling a cut that lies below the anchor
/// puts a summary under the chain that does not reach up to it, and the chain
/// does not verify any more.
pub proof fn settling_a_cut_below_the_anchor_breaks_the_chain(s: StateV, cut: BlockV)
    requires
        sound(s),
        s.head is Some,
        s.checkpoint_blob is Some,
        cut.change is Checkpoint,
        cut.change->Checkpoint_upto < s.checkpoint_blob->0.upto,
        cut.height == cut.change->Checkpoint_upto + 1,
    ensures
        !sound(s.block_settled(cut)),
{
    let upto = cut.change->Checkpoint_upto;
    let blob = s.checkpoint_blob->0;
    lemma_walk_facts(s, s.blocks);
    let ids = governance::ids_naming(s.proposal_changes, cut.change);
    sealing::lemma_forgetting_frame(s, ids);
    let forgot = s.forgetting_each(ids);
    assert(forgot.own_summary(upto) == Ok::<SummaryV, FaultV>(fold::cut_at(blob, upto)));
    let low = fold::cut_at(blob, upto);
    assert(forall|i: int|
        0 <= i < s.blocks.len() ==> (#[trigger] s.blocks[i]).height >= cut.height);
    lemma_all_from(s.blocks, cut.height);
    let anchored = forgot.anchored_on(Some(low));
    let pruned = StateV { blocks: sealing::blocks_from(anchored.blocks, cut.height), ..anchored };
    assert(pruned.blocks =~= s.blocks);
    sealing::lemma_chain_applied_frame(pruned);
    let after = s.block_settled(cut);
    assert(after.checkpoint_blob == Some(low));
    assert(after.blocks == s.blocks);
    assert(walk::anchor_fault(low, s.blocks[0], after.rid()) is Some);
}

/// Where no block is lower, all are left from a height on.
proof fn lemma_all_from(blocks: Seq<BlockV>, height: u64)
    requires
        forall|i: int| 0 <= i < blocks.len() ==> (#[trigger] blocks[i]).height >= height,
    ensures
        sealing::blocks_from(blocks, height) == blocks,
    decreases blocks.len(),
{
    if blocks.len() > 0 {
        let front = blocks.drop_last();
        assert forall|i: int| 0 <= i < front.len() implies (#[trigger] front[i]).height >= height by {
            assert(front[i] == blocks[i]);
        }
        assert(blocks.last() == blocks[blocks.len() - 1]);
        lemma_all_from(front, height);
        assert(front.push(blocks.last()) =~= blocks);
    } else {
        assert(sealing::blocks_from(blocks, height) =~= blocks);
    }
}

/// Trying the other branch keeps a holder sound. Left out is a re-base in
/// which the holder, while it works through the other branch, itself seals a
/// cut above one of that branch's cuts.
pub proof fn rebasing_keeps_the_holder_sound(s: StateV)
    requires
        sound(s),
        rebase_is_plain(s),
    ensures
        sound(s.reorganizing()),
{
    if s.blocks.len() > 0 {
        match sync::fork_height(s.rid(), s.blocks, s.fork_candidates) {
            None => {
                lemma_same_holding(s, s.reorganizing());
            },
            Some(fork) => {
                let suffix = sync::linked_run(s.rid(), s.fork_candidates, fork, None);
                let candidate = sync::blocks_below(s.blocks, fork) + suffix;
                lemma_same_holding(s, s.forks_cleared());
                if s.walked_here(candidate) is Ok {
                    sync_laws::a_rebase_keeps_the_anchor(s);
                    lemma_walk_facts(s, s.blocks);
                    lemma_walk_facts(s, candidate);
                    adopting_keeps_the_holder_sound(s, candidate);
                    let adopted = s.adopting(candidate);
                    let dropped = sealing::blocks_from(s.blocks, fork);
                    lemma_reopened_frame(adopted, dropped, suffix);
                    let start = switched(s, fork, suffix);
                    lemma_same_holding(adopted, start);
                    lemma_after_each_sound(start, suffix);
                    let after = start.after_each(suffix);
                    lemma_resigned_sound(after);
                    let signed = after.resigned_all();
                    lemma_same_holding(signed, s.moved_onto(fork, suffix));
                }
            },
        }
    }
}

/// Meeting another branch keeps a holder sound.
proof fn lemma_other_branch_sound(s: StateV, from: Seq<char>, since: u64, block: BlockV)
    requires
        sound(s),
        rebase_is_plain(s.diverging(from, since).fork_kept(block)),
    ensures
        sound(s.other_branch(from, since, block)),
{
    let met = s.diverging(from, since).fork_kept(block);
    lemma_same_holding(s, met);
    rebasing_keeps_the_holder_sound(met);
}

/// Settling a contest keeps a holder sound. Left out is what is left out of
/// replacing a tip and of a re-base.
pub proof fn a_contest_keeps_the_holder_sound(s: StateV, from: Seq<char>, block: BlockV)
    requires
        sound(s),
        !founds_another(s, block),
        anchor_is_ordered(s),
        forall|since: u64|
            rebase_is_plain(#[trigger] s.diverging(from, since).fork_kept(block)),
    ensures
        sound(s.contested(from, block)),
{
    match sync::block_at(s.blocks, block.height) {
        None => {},
        Some(existing) => {
            if existing == block {
                lemma_same_holding(s, s.converging(from));
            } else if !s.shares_prev(block) {
                assert(rebase_is_plain(
                    s.diverging(from, sync::lower(block.height)).fork_kept(block),
                ));
                lemma_other_branch_sound(s, from, sync::lower(block.height), block);
            } else if s.blocks.last().height != block.height {
                assert(rebase_is_plain(s.diverging(from, block.height).fork_kept(block)));
                lemma_other_branch_sound(s, from, block.height, block);
            } else {
                lemma_walk_facts(s, s.blocks);
                lemma_tip_found(s.blocks);
                if text::before(
                    signers::block_hash_of(s.rid(), block),
                    signers::block_hash_of(s.rid(), existing),
                ) {
                    replacing_the_tip_keeps_the_holder_sound(s, block);
                }
            }
        },
    }
}

/// In a chain whose heights count up, the block at the last height is the
/// last block.
proof fn lemma_tip_found(blocks: Seq<BlockV>)
    requires
        blocks.len() > 0,
        forall|i: int|
            0 <= i < blocks.len() ==> (#[trigger] blocks[i]).height == blocks[0].height + i,
    ensures
        sync::block_at(blocks, blocks.last().height) == Some(blocks.last()),
    decreases blocks.len(),
{
    assert(blocks.last() == blocks[blocks.len() - 1]);
    if blocks.len() > 1 {
        let rest = blocks.skip(1);
        assert forall|i: int| 0 <= i < rest.len() implies (#[trigger] rest[i]).height
            == rest[0].height + i by {
            assert(rest[i] == blocks[i + 1]);
            assert(rest[0] == blocks[1]);
        }
        assert(rest.last() == blocks.last());
        lemma_tip_found(rest);
    }
}

/// A first block keeps a holder sound, unless it founds another republic.
proof fn lemma_first_block_sound(s: StateV, block: BlockV)
    requires
        sound(s),
        s.head is None,
        !founds_another(s, block),
    ensures
        sound(s.first_block(block)),
{
    if block.height == 0 {
        let foreign = match block.change {
            ChangeV::Genesis { republic_id, .. } => s.rid().len() > 0 && republic_id != s.rid(),
            _ => false,
        };
        if !foreign {
            let one = seq![block];
            if s.walked_here(one) is Ok {
                lemma_walk_facts(s, one);
            }
            adopting_keeps_the_holder_sound(s, one);
            let adopted = s.adopting(one);
            if adopted.head is Some {
                lemma_drained_sound(adopted);
            }
        }
    } else {
        let held = StateV {
            pending_blocks: sync::capped(table::put(s.pending_blocks, block.height, block)),
            ..s
        };
        lemma_same_holding(s, held);
        trying_a_summary_keeps_the_holder_sound(held);
    }
}

/// Hearing a block keeps a holder sound, whoever sends it and whatever it is:
/// the chain verifies after it, to the head that the holder then has. Left out
/// are the founding of another republic and what is left out of replacing a tip
/// and of a re-base.
pub proof fn hearing_a_block_keeps_the_holder_sound(s: StateV, from: Seq<char>, block: BlockV)
    requires
        sound(s),
        !founds_another(s, block),
        anchor_is_ordered(s),
        forall|since: u64|
            rebase_is_plain(
                #[trigger] s.peer_noted(from, block.height).diverging(from, since).fork_kept(block),
            ),
    ensures
        sound(s.block_heard(from, block)),
{
    let noted = s.peer_noted(from, block.height);
    lemma_same_holding(s, noted);
    match noted.head {
        None => {
            lemma_first_block_sound(noted, block);
        },
        Some(h) => {
            if block.height == h.height + 1 {
                if block.prev != h.hash {
                    assert(rebase_is_plain(noted.diverging(from, h.height).fork_kept(block)));
                    lemma_other_branch_sound(noted, from, h.height, block);
                } else {
                    lemma_next_applied_sound(noted, block);
                    if noted.accepts(block) {
                        let applied = noted.next_applied(block);
                        lemma_same_holding(applied, applied.converging(from));
                        lemma_drained_sound(applied.converging(from));
                    }
                }
            } else if block.height <= h.height {
                a_contest_keeps_the_holder_sound(noted, from, block);
            } else if noted.near(block.height) {
                let held = StateV {
                    pending_blocks: sync::capped(
                        table::put(
                            table::above(noted.pending_blocks, noted.height()),
                            block.height,
                            block,
                        ),
                    ),
                    ..noted
                };
                lemma_same_holding(noted, held);
                trying_a_summary_keeps_the_holder_sound(held);
                lemma_same_holding(held.re_anchoring(), noted.ahead(block));
            }
        },
    }
}

/// Why the founding of another republic is left out: a holder without a chain
/// that does not know its republic takes any founding.
pub proof fn a_holder_that_knows_no_republic_takes_any(s: StateV, from: Seq<char>, block: BlockV)
    requires
        sound(s),
        s.head is None,
        s.rid().len() == 0,
        s.pending_blocks.len() == 0,
        founds_another(s, block),
    ensures
        !sound(s.block_heard(from, block)),
{
    let noted = s.peer_noted(from, block.height);
    let one = seq![block];
    lemma_walk_facts(s, one);
    assert(noted.walked_here(one) == s.walked_here(one));
    let w = s.walked_here(one)->Ok_0;
    let taken = StateV { blocks: one, head: Some(w.head), walk: Some(w), ..noted };
    sealing::lemma_chain_applied_frame(taken.minting_past_chain());
    let adopted = noted.adopting(one);
    assert(adopted.head == Some(w.head));
    assert(table::get(adopted.pending_blocks, 1) is None);
    let going = StateV { drain_waits: false, ..adopted };
    assert(going.draining() == (if going.votes_wait {
        StateV { drain_waits: true, ..going }
    } else {
        going.trimmed()
    }));
}

/// And one that holds a lone founding loses it to another with a smaller hash.
pub proof fn a_lone_founding_is_lost_to_another(s: StateV, block: BlockV)
    requires
        sound(s),
        s.blocks.len() == 1,
        s.pending_sigs.len() == 0,
        founds_another(s, block),
    ensures
        !sound(s.tip_replaced(block)),
{
    let one = seq![block];
    assert(s.blocks.drop_last().push(block) =~= one);
    lemma_walk_facts(s, one);
    let w = s.walked_here(one)->Ok_0;
    let taken = StateV { blocks: one, head: Some(w.head), head_moved_at: s.now, ..s };
    sealing::lemma_chain_applied_frame(taken);
    let applied = taken.chain_applied();
    let back = match signers::consumed_by(s.blocks.last().change) {
        Some(id) => applied.reopened(id),
        None => applied,
    };
    assert(block.change is Genesis);
    assert(back.block_settled(block) == back);
    quiet_laws::lemma_chain_applied_quiet(taken);
    quiet_laws::lemma_rebasing_quiet(back);
}

/// What a holder serves is accepted by whoever asks for this republic: its
/// summary and its blocks verify, to the head that it has.
pub proof fn what_is_served_is_accepted(s: StateV)
    requires
        sound(s),
        s.head is Some,
    ensures
        walk::served(s.checkpoint_blob, s.blocks, Some(s.rid())) is Ok,
        walk::served(s.checkpoint_blob, s.blocks, Some(s.rid()))->Ok_0.0 == s.head->0,
{
    lemma_walk_facts(s, s.blocks);
}

/// The anchor that a returning member is handed verifies by itself, under the
/// summary that comes with it.
pub proof fn the_anchor_verifies_by_itself(s: StateV)
    requires
        sound(s),
        s.head is Some,
    ensures
        s.blocks.len() > 0,
        walk::served(s.checkpoint_blob, seq![s.blocks[0]], Some(s.rid())) is Ok,
{
    lemma_walk_facts(s, s.blocks);
    let first = seq![s.blocks[0]];
    let rest = s.blocks.skip(1);
    assert(s.blocks =~= first + rest);
    lemma_here_split(s, first, rest);
    lemma_rid_of_beginning(s, first, rest);
    lemma_walk_facts(s, first);
}

/// Holders of one chain agree on what fits it, and on the head after it:
/// whatever else they have heard, and in whatever order.
pub proof fn holders_of_one_chain_agree(a: StateV, b: StateV, block: BlockV)
    requires
        sound(a),
        sound(b),
        a.head is Some,
        b.head is Some,
        a.rid() == b.rid(),
        a.blocks == b.blocks,
        a.checkpoint_blob == b.checkpoint_blob,
    ensures
        a.head == b.head,
        a.extension(block) == b.extension(block),
{
    a_kept_walk_is_never_wrong(a);
    a_kept_walk_is_never_wrong(b);
}

} // verus!
