//! Catching up does not depend on the order in which the blocks arrive.

use crate::chain_laws;
use crate::holder_laws;
use crate::model::BlockV;
use crate::quiet_laws;
use crate::sealing;
use crate::state::StateV;
use crate::sync;
use crate::sync::CATCHUP_BUFFER_WINDOW;
use crate::table;
use crate::walk;
use vstd::prelude::*;

verus! {

/// One arrival: who sent the block, and where in the chain it stands.
#[verifier::ext_equal]
pub ghost struct ArrivalV {
    pub from: Seq<char>,
    pub place: int,
}

/// The state once a block of the chain has arrived.
#[verifier::opaque]
pub open spec fn heard(s: StateV, chain: Seq<BlockV>, arrival: ArrivalV) -> StateV {
    s.block_heard(arrival.from, chain[arrival.place])
}

/// The state once the blocks of the chain have arrived one after another.
pub open spec fn heard_each(s: StateV, chain: Seq<BlockV>, arrivals: Seq<ArrivalV>) -> StateV
    decreases arrivals.len(),
{
    if arrivals.len() == 0 {
        s
    } else {
        heard(heard_each(s, chain, arrivals.drop_last()), chain, arrivals.last())
    }
}

/// Does the block of that place arrive?
pub open spec fn arrives(arrivals: Seq<ArrivalV>, place: int) -> bool {
    exists|i: int| 0 <= i < arrivals.len() && (#[trigger] arrivals[i]).place == place
}

/// Is the state one of a holder of a beginning of the chain, which holds back
/// only later blocks of it, and has no open vote?
pub open spec fn following(s: StateV, chain: Seq<BlockV>) -> bool {
    let held = s.blocks.len() as int;
    &&& holder_laws::sound(s)
    &&& quiet_laws::quiet(s)
    &&& s.head is Some
    &&& s.checkpoint_blob is None
    &&& s.pending_served_blob is None
    &&& !s.votes_wait
    &&& !s.drain_waits
    &&& 0 < held <= chain.len()
    &&& s.blocks == chain.take(held)
    &&& table::keys_ascend(s.pending_blocks)
    &&& forall|i: int|
        0 <= i < s.pending_blocks.len() ==> held <= (#[trigger] s.pending_blocks[i]).0
            < chain.len() && s.pending_blocks[i].1 == chain[s.pending_blocks[i].0 as int]
}

/// Has the block of that place arrived: is it in the chain or held back?
pub open spec fn arrived(s: StateV, place: u64) -> bool {
    place < s.blocks.len() || table::has(s.pending_blocks, place)
}

/// Does nothing that is held back come next?
pub open spec fn drained(s: StateV) -> bool {
    !table::has(s.pending_blocks, s.blocks.len() as u64)
}

/// May a chain be caught up on in any order: it verifies, it has no cut, and
/// what `held` blocks lack of it fits the window?
pub open spec fn catchable(chain: Seq<BlockV>, held: nat) -> bool {
    &&& walk::walked(chain) is Ok
    &&& forall|i: int| 0 <= i < chain.len() ==> !((#[trigger] chain[i]).change is Checkpoint)
    &&& chain.len() <= held + CATCHUP_BUFFER_WINDOW
    &&& chain.len() <= u64::MAX
}

/// What a holder of a beginning of the chain knows: its height, and that the
/// next block fits.
proof fn lemma_next_fits(s: StateV, chain: Seq<BlockV>)
    requires
        following(s, chain),
        walk::walked(chain) is Ok,
    ensures
        s.height() == s.blocks.len() - 1,
        s.blocks.len() < chain.len() ==> {
            &&& s.accepts(chain[s.blocks.len() as int])
            &&& chain[s.blocks.len() as int].prev == s.head->0.hash
        },
        forall|i: int| 0 <= i < chain.len() ==> (#[trigger] chain[i]).height == i,
{
    let held = s.blocks.len() as int;
    chain_laws::a_verified_chain_is_sound(chain);
    chain_laws::every_prefix_verifies(chain, held);
    chain_laws::a_verified_chain_is_sound(s.blocks);
    holder_laws::a_kept_walk_is_never_wrong(s);
    if held < chain.len() {
        chain_laws::every_prefix_verifies(chain, held + 1);
        assert(chain.take(held + 1) =~= s.blocks.push(chain[held]));
        chain_laws::extending_equals_walking_again(s.blocks, chain[held]);
        chain_laws::lemma_step_facts(walk::walked(s.blocks)->Ok_0, chain[held]);
    }
}

/// Appending brings no vote.
proof fn lemma_appending_quiet(s: StateV, block: BlockV)
    requires
        quiet_laws::quiet(s),
    ensures
        quiet_laws::quiet(s.appending(block)),
{
}

/// The next block applied, of which nothing is held back.
proof fn lemma_next_taken(s: StateV, chain: Seq<BlockV>)
    requires
        following(s, chain),
        drained(s),
        catchable(chain, s.blocks.len()),
        s.blocks.len() < chain.len(),
    ensures
        following(s.next_applied(chain[s.blocks.len() as int]), chain),
        s.next_applied(chain[s.blocks.len() as int]).blocks.len() == s.blocks.len() + 1,
        s.next_applied(chain[s.blocks.len() as int]).pending_blocks == s.pending_blocks,
{
    let held = s.blocks.len() as int;
    let block = chain[held];
    let after = s.next_applied(block);
    lemma_next_fits(s, chain);
    let appended = s.appending(block);
    sealing::lemma_appended_head(s, block);
    holder_laws::lemma_appending_fields(s, block);
    lemma_appending_quiet(s, block);
    let settled = appended.block_settled(block);
    sealing::lemma_block_settled_head(appended, block);
    holder_laws::lemma_settling_frame(appended, block);
    quiet_laws::lemma_block_settled_quiet(appended, block);
    quiet_laws::lemma_rebasing_quiet(settled);
    holder_laws::lemma_next_applied_sound(s, block);
    sync::lemma_next_applied_sync(s, block);
    assert(after.blocks =~= chain.take(held + 1));
    assert forall|i: int| 0 <= i < after.pending_blocks.len() implies held + 1 <= (
    #[trigger] after.pending_blocks[i]).0 < chain.len() && after.pending_blocks[i].1
        == chain[after.pending_blocks[i].0 as int] by {
        assert(held <= s.pending_blocks[i].0);
        table::a_row_is_what_is_read(s.pending_blocks, i);
    }
}

/// Where every key is above the floor, nothing is trimmed.
proof fn lemma_all_above<V>(rows: Seq<(u64, V)>, floor: u64)
    requires
        forall|i: int| 0 <= i < rows.len() ==> (#[trigger] rows[i]).0 > floor,
    ensures
        table::above(rows, floor) == rows,
    decreases rows.len(),
{
    if rows.len() > 0 {
        let front = rows.drop_last();
        assert(rows[rows.len() - 1].0 > floor);
        assert forall|i: int| 0 <= i < front.len() implies (#[trigger] front[i]).0 > floor by {
            assert(rows[i].0 > floor);
        }
        lemma_all_above(front, floor);
        assert(front.push(rows.last()) =~= rows);
    }
}

/// A holder that follows the chain trims nothing.
proof fn lemma_nothing_trimmed(s: StateV, chain: Seq<BlockV>)
    requires
        following(s, chain),
        walk::walked(chain) is Ok,
    ensures
        table::above(s.pending_blocks, s.height()) == s.pending_blocks,
        s.trimmed() == s,
{
    lemma_next_fits(s, chain);
    assert forall|i: int| 0 <= i < s.pending_blocks.len() implies (
    #[trigger] s.pending_blocks[i]).0 > s.height() by {
        assert(s.blocks.len() <= s.pending_blocks[i].0);
    }
    lemma_all_above(s.pending_blocks, s.height());
}

/// A removal from what is held back leaves later blocks of the chain.
proof fn lemma_taken_follows(s: StateV, chain: Seq<BlockV>)
    requires
        following(s, chain),
        s.blocks.len() <= u64::MAX,
    ensures
        ({
            let next = s.blocks.len() as u64;
            let taken = StateV { pending_blocks: table::del(s.pending_blocks, next), ..s };
            following(taken, chain) && drained(taken)
        }),
{
    let next = s.blocks.len() as u64;
    let rest = table::del(s.pending_blocks, next);
    let taken = StateV { pending_blocks: rest, ..s };
    table::removing_keeps_the_order(s.pending_blocks, next);
    table::reading_a_removal(s.pending_blocks, next, next);
    assert(taken.walked_here(taken.blocks) == s.walked_here(s.blocks));
    assert forall|i: int| 0 <= i < rest.len() implies s.blocks.len() <= (#[trigger] rest[i]).0
        < chain.len() && rest[i].1 == chain[rest[i].0 as int] by {
        let j = choose|j: int| 0 <= j < s.pending_blocks.len() && s.pending_blocks[j] == rest[i];
        assert(s.blocks.len() <= s.pending_blocks[j].0);
    }
}

/// Draining keeps a holder following, loses no block, and leaves none that
/// comes next.
proof fn lemma_draining_follows(s: StateV, chain: Seq<BlockV>)
    requires
        following(s, chain),
        catchable(chain, s.blocks.len()),
    ensures
        following(s.draining(), chain),
        drained(s.draining()),
        s.draining().blocks.len() >= s.blocks.len(),
        forall|place: u64| arrived(s, place) ==> #[trigger] arrived(s.draining(), place),
    decreases s.pending_blocks.len(),
{
    let held = s.blocks.len();
    lemma_next_fits(s, chain);
    lemma_nothing_trimmed(s, chain);
    match s.target() {
        None => {},
        Some(next) => {
            assert(next == held);
            match table::get(s.pending_blocks, next) {
                None => {},
                Some(block) => {
                    let k = table::what_is_read_is_a_row(s.pending_blocks, next);
                    assert(block == chain[held as int]);
                    let taken = StateV { pending_blocks: table::del(s.pending_blocks, next), ..s };
                    sync::lemma_removal_shrinks(s.pending_blocks, next);
                    lemma_taken_follows(s, chain);
                    lemma_next_fits(taken, chain);
                    lemma_next_taken(taken, chain);
                    let after = taken.next_applied(block);
                    lemma_draining_follows(after, chain);
                    assert forall|place: u64| arrived(s, place) implies #[trigger] arrived(
                        s.draining(),
                        place,
                    ) by {
                        table::reading_a_removal(s.pending_blocks, next, place);
                        assert(arrived(after, place));
                        assert(arrived(after.draining(), place));
                    }
                },
            }
        },
    }
}

/// What is held back is no more than what is missing.
proof fn lemma_held_back_fits<V>(rows: Seq<(u64, V)>, low: int, high: int)
    requires
        table::keys_ascend(rows),
        low <= high,
        forall|i: int| 0 <= i < rows.len() ==> low <= (#[trigger] rows[i]).0 < high,
    ensures
        rows.len() <= high - low,
    decreases rows.len(),
{
    if rows.len() > 0 {
        let front = rows.drop_last();
        let last = rows[rows.len() - 1].0 as int;
        assert(low <= last < high);
        assert forall|i: int, j: int| 0 <= i < j < front.len() implies (#[trigger] front[i]).0 < (
        #[trigger] front[j]).0 by {
            assert(rows[i].0 < rows[j].0);
        }
        assert forall|i: int| 0 <= i < front.len() implies low <= (#[trigger] front[i]).0 < last by {
            assert(low <= rows[i].0);
            assert(rows[i].0 < rows[rows.len() - 1].0);
        }
        lemma_held_back_fits(front, low, last);
    }
}

/// A block further ahead is held back.
proof fn lemma_ahead_follows(s: StateV, chain: Seq<BlockV>, place: u64)
    requires
        following(s, chain),
        drained(s),
        catchable(chain, s.blocks.len()),
        s.blocks.len() < place < chain.len(),
    ensures
        following(s.ahead(chain[place as int]), chain),
        drained(s.ahead(chain[place as int])),
        s.ahead(chain[place as int]).blocks == s.blocks,
        arrived(s.ahead(chain[place as int]), place),
        forall|other: u64|
            arrived(s, other) ==> #[trigger] arrived(s.ahead(chain[place as int]), other),
{
    let block = chain[place as int];
    let held = s.blocks.len();
    lemma_next_fits(s, chain);
    lemma_nothing_trimmed(s, chain);
    assert(block.height == place);
    let rows = table::put(s.pending_blocks, place, block);
    table::putting_keeps_the_order(s.pending_blocks, place, block);
    assert forall|i: int| 0 <= i < rows.len() implies held <= (#[trigger] rows[i]).0 < chain.len()
        && rows[i].1 == chain[rows[i].0 as int] by {
        table::a_row_is_what_is_read(rows, i);
        table::reading_a_put(s.pending_blocks, place, block, rows[i].0);
        if rows[i].0 != place {
            let j = table::what_is_read_is_a_row(s.pending_blocks, rows[i].0);
            assert(held <= s.pending_blocks[j].0);
        }
    }
    lemma_held_back_fits(rows, held as int, chain.len() as int);
    assert(sync::capped(rows) == rows);
    let after = s.ahead(block);
    assert(after.pending_blocks == rows);
    assert(after.walked_here(after.blocks) == s.walked_here(s.blocks));
    assert forall|other: u64| arrived(s, other) implies #[trigger] arrived(after, other) by {
        table::reading_a_put(s.pending_blocks, place, block, other);
    }
    table::reading_a_put(s.pending_blocks, place, block, place);
    table::reading_a_put(s.pending_blocks, place, block, held as u64);
}

/// In a chain that counts up, the block of a height stands at that place.
proof fn lemma_block_at(blocks: Seq<BlockV>, first: int, place: u64)
    requires
        first <= place < first + blocks.len(),
        forall|i: int| 0 <= i < blocks.len() ==> (#[trigger] blocks[i]).height == first + i,
    ensures
        sync::block_at(blocks, place) == Some(blocks[place - first]),
    decreases blocks.len(),
{
    assert(blocks[0].height == first);
    if place > first {
        let rest = blocks.skip(1);
        assert forall|i: int| 0 <= i < rest.len() implies (#[trigger] rest[i]).height == first + 1
            + i by {
            assert(blocks[i + 1].height == first + i + 1);
        }
        lemma_block_at(rest, first + 1, place);
    }
}

/// What leaves the chain and what is held back alone keeps a holder following.
proof fn lemma_same_following(a: StateV, b: StateV, chain: Seq<BlockV>)
    requires
        following(a, chain),
        holder_laws::same_holding(a, b),
        a.pending_sigs == b.pending_sigs,
        a.pending_blocks == b.pending_blocks,
        a.pending_served_blob == b.pending_served_blob,
        a.votes_wait == b.votes_wait,
        a.drain_waits == b.drain_waits,
    ensures
        following(b, chain),
{
    assert(a.walked_here(a.blocks) == b.walked_here(b.blocks));
}

/// A block of the chain heard, whichever it is.
proof fn lemma_hearing_follows(s: StateV, chain: Seq<BlockV>, arrival: ArrivalV)
    requires
        following(s, chain),
        drained(s),
        catchable(chain, s.blocks.len()),
        0 <= arrival.place < chain.len(),
    ensures
        ({
            let after = heard(s, chain, arrival);
            &&& following(after, chain)
            &&& drained(after)
            &&& after.blocks.len() >= s.blocks.len()
            &&& arrived(after, arrival.place as u64)
            &&& forall|other: u64| arrived(s, other) ==> #[trigger] arrived(after, other)
        }),
{
    reveal(heard);
    let from = arrival.from;
    let place = arrival.place as u64;
    let block = chain[place as int];
    let held = s.blocks.len();
    let noted = s.peer_noted(from, block.height);
    let after = s.block_heard(from, block);
    lemma_next_fits(s, chain);
    lemma_same_following(s, noted, chain);
    lemma_next_fits(noted, chain);
    assert(block.height == place);
    if place == held {
        lemma_next_taken(noted, chain);
        let taken = noted.next_applied(block);
        let near = taken.converging(from);
        lemma_same_following(taken, near, chain);
        lemma_draining_follows(near, chain);
        lemma_same_following(near.draining(), near.draining().persisting(), chain);
        assert(near == (StateV { drain_waits: false, ..near }));
        assert(after == near.draining().persisting());
        assert forall|other: u64| arrived(s, other) || other == place implies #[trigger] arrived(
            after,
            other,
        ) by {
            assert(arrived(near, other));
            assert(arrived(near.draining(), other));
        }
    } else if place < held {
        assert forall|i: int| 0 <= i < s.blocks.len() implies (#[trigger] s.blocks[i]).height == 0
            + i by {
            assert(chain[i].height == i);
        }
        lemma_block_at(s.blocks, 0, place);
        assert(s.blocks[place as int] == block);
        assert(after == noted.converging(from));
        lemma_same_following(noted, after, chain);
    } else {
        lemma_ahead_follows(noted, chain, place);
        assert(after == noted.ahead(block));
        assert forall|other: u64| arrived(s, other) implies #[trigger] arrived(after, other) by {
            assert(arrived(noted, other));
        }
    }
}

/// Whatever of the chain has arrived, the holder follows it.
proof fn lemma_arrivals_follow(s: StateV, chain: Seq<BlockV>, arrivals: Seq<ArrivalV>)
    requires
        following(s, chain),
        drained(s),
        catchable(chain, s.blocks.len()),
        forall|i: int| 0 <= i < arrivals.len() ==> 0 <= (#[trigger] arrivals[i]).place < chain.len(),
    ensures
        following(heard_each(s, chain, arrivals), chain),
        drained(heard_each(s, chain, arrivals)),
        heard_each(s, chain, arrivals).blocks.len() >= s.blocks.len(),
        forall|i: int|
            0 <= i < arrivals.len() ==> arrived(
                heard_each(s, chain, arrivals),
                (#[trigger] arrivals[i]).place as u64,
            ),
    decreases arrivals.len(),
{
    if arrivals.len() > 0 {
        let front = arrivals.drop_last();
        let last = arrivals.last();
        assert forall|i: int| 0 <= i < front.len() implies 0 <= (#[trigger] front[i]).place
            < chain.len() by {
            assert(0 <= arrivals[i].place);
        }
        assert(0 <= arrivals[arrivals.len() - 1].place < chain.len());
        lemma_arrivals_follow(s, chain, front);
        let before = heard_each(s, chain, front);
        lemma_hearing_follows(before, chain, last);
        assert forall|i: int| 0 <= i < arrivals.len() implies arrived(
            heard_each(s, chain, arrivals),
            (#[trigger] arrivals[i]).place as u64,
        ) by {
            if i < front.len() {
                assert(arrived(before, front[i].place as u64));
            }
        }
    }
}

/// A holder of a beginning of a chain, without open votes and with nothing held
/// back or waiting, ends up with the whole chain once every missing block has
/// arrived: in whatever order, from whomever, and however often. Nothing stays
/// held back.
pub proof fn catching_up_needs_no_order(s: StateV, chain: Seq<BlockV>, arrivals: Seq<ArrivalV>)
    requires
        holder_laws::sound(s),
        quiet_laws::quiet(s),
        s.head is Some,
        s.checkpoint_blob is None,
        s.pending_served_blob is None,
        s.pending_blocks.len() == 0,
        !s.votes_wait,
        !s.drain_waits,
        0 < s.blocks.len() <= chain.len(),
        s.blocks == chain.take(s.blocks.len() as int),
        catchable(chain, s.blocks.len()),
        forall|i: int| 0 <= i < arrivals.len() ==> 0 <= (#[trigger] arrivals[i]).place < chain.len(),
        forall|place: int|
            s.blocks.len() <= place < chain.len() ==> #[trigger] arrives(arrivals, place),
    ensures
        ({
            let after = heard_each(s, chain, arrivals);
            &&& after.blocks == chain
            &&& after.head == Some(walk::walked(chain)->Ok_0.head)
            &&& after.pending_blocks == Seq::<(u64, BlockV)>::empty()
        }),
{
    let after = heard_each(s, chain, arrivals);
    lemma_arrivals_follow(s, chain, arrivals);
    let held = after.blocks.len() as int;
    if held < chain.len() {
        assert(arrives(arrivals, held));
        let i = choose|i: int| 0 <= i < arrivals.len() && (#[trigger] arrivals[i]).place == held;
        assert(arrived(after, arrivals[i].place as u64));
    }
    assert(chain.take(held) =~= chain);
    if after.pending_blocks.len() > 0 {
        assert(held <= after.pending_blocks[0].0 < chain.len());
    }
    assert(after.pending_blocks =~= Seq::empty());
}

} // verus!
