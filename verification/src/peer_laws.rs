//! What is shown of the other members: how far they are, who has gone quiet,
//! who no longer signs and who is on another branch.

use crate::model::{BlockV, IdentityV};
use crate::peers;
use crate::peers::{LastSeenV, SilentV, StaleV};
use crate::state::{DivergenceV, EffectV, EventV, PeerHeightV, StateV};
use crate::text;
use vstd::prelude::*;

verus! {

/// The height on record for a member is the higher of the one that was and the
/// one that was heard.
pub proof fn the_higher_height_is_on_record(
    list: Seq<PeerHeightV>,
    member: Seq<char>,
    height: u64,
    other: Seq<char>,
)
    ensures
        peers::height_of(peers::heights_with(list, member, height), other) == (if other != member {
            peers::height_of(list, other)
        } else {
            match peers::height_of(list, member) {
                Some(h) => if h >= height {
                    Some(h)
                } else {
                    Some(height)
                },
                None => Some(height),
            }
        }),
    decreases list.len(),
{
    let out = peers::heights_with(list, member, height);
    reveal_with_fuel(peers::height_of, 2);
    if list.len() == 0 {
        assert(out.skip(1) =~= Seq::empty());
    } else if list[0].member == member {
        assert(out.skip(1) =~= list.skip(1));
    } else {
        the_higher_height_is_on_record(list.skip(1), member, height, other);
        assert(out.skip(1) =~= peers::heights_with(list.skip(1), member, height));
    }
}

/// A peer's height is noted under its name; what comes from nobody, or from
/// the holder itself, is not.
pub proof fn a_peer_is_noted_under_its_name(s: StateV, from: Seq<char>, height: u64)
    ensures
        from.len() == 0 || from == s.me() ==> s.peer_noted(from, height) == s,
        from.len() > 0 && from != s.me() ==> {
            let w = s.peer_noted(from, height);
            &&& peers::height_of(w.peer_heights, from) is Some
            &&& peers::height_of(w.peer_heights, from)->0 >= height
            &&& w == StateV { peer_heights: w.peer_heights, ..s }
        },
{
    the_higher_height_is_on_record(s.peer_heights, from, height, from);
}

/// The highest on record is on record, and none is higher.
proof fn lemma_top(list: Seq<PeerHeightV>)
    ensures
        forall|i: int| 0 <= i < list.len() ==> (#[trigger] list[i]).height <= peers::top_height(
            list,
        ),
        list.len() == 0 ==> peers::top_height(list) == 0,
        list.len() > 0 ==> exists|i: int|
            0 <= i < list.len() && (#[trigger] list[i]).height == peers::top_height(list),
    decreases list.len(),
{
    if list.len() > 0 {
        let front = list.drop_last();
        lemma_top(front);
        assert(list[list.len() - 1] == list.last());
        assert forall|i: int| 0 <= i < list.len() implies (#[trigger] list[i]).height
            <= peers::top_height(list) by {
            if i < front.len() {
                assert(front[i] == list[i]);
            }
        }
        if peers::top_height(front) >= list.last().height && front.len() > 0 {
            let i = choose|i: int|
                0 <= i < front.len() && (#[trigger] front[i]).height == peers::top_height(front);
            assert(list[i] == front[i]);
        }
    }
}

/// The peers are ahead by as much as the highest of them is above the own
/// head: by nothing exactly where none of them is.
pub proof fn the_peers_are_ahead_by_the_highest(s: StateV, seen: Seq<LastSeenV>)
    ensures
        ({
            let ahead = s.lag(seen).peers_ahead;
            &&& forall|i: int|
                0 <= i < s.peer_heights.len() ==> (#[trigger] s.peer_heights[i]).height
                    <= s.height() + ahead
            &&& ahead > 0 ==> exists|i: int|
                0 <= i < s.peer_heights.len() && (#[trigger] s.peer_heights[i]).height
                    == s.height() + ahead
        }),
{
    lemma_top(s.peer_heights);
}

/// For how long is that member silent, if it is? One that was seen counts from
/// then and one that never was from the founding, two minutes at least; where
/// neither is known the time is not.
pub open spec fn quiet_for(s: StateV, seen: Seq<LastSeenV>, member: Seq<char>) -> Option<int> {
    let founded = match s.replica {
        Some(r) => r.founded_ts,
        None => 0,
    };
    let at = match peers::seen_at(seen, member) {
        Some(at) => Some(at),
        None => if founded == 0 {
            None
        } else {
            Some(founded)
        },
    };
    match at {
        None => Some(0),
        Some(at) => if s.now - at >= 120 {
            Some(s.now - at)
        } else {
            None
        },
    }
}

/// The silent members are those of the roster, but for the holder itself, that
/// have been quiet for long enough, in roster order and each with its time.
pub proof fn the_silent_are_shown_in_roster_order(s: StateV, seen: Seq<LastSeenV>)
    ensures
        s.lag(seen).silent == s.roster().filter(
            |m: Seq<char>| m != s.me() && quiet_for(s, seen, m) is Some,
        ).map_values(
            |m: Seq<char>| SilentV { member: m, secs: quiet_for(s, seen, m)->0 as u64 },
        ),
{
    lemma_silent(s, seen, s.roster().len() as int);
    assert(s.roster().take(s.roster().len() as int) =~= s.roster());
}

/// The silent ones among the first seats.
proof fn lemma_silent(s: StateV, seen: Seq<LastSeenV>, n: int)
    requires
        0 <= n <= s.roster().len(),
    ensures
        s.silent_upto(seen, n) == s.roster().take(n).filter(
            |m: Seq<char>| m != s.me() && quiet_for(s, seen, m) is Some,
        ).map_values(
            |m: Seq<char>| SilentV { member: m, secs: quiet_for(s, seen, m)->0 as u64 },
        ),
    decreases n,
{
    reveal(Seq::filter);
    let pass = |m: Seq<char>| m != s.me() && quiet_for(s, seen, m) is Some;
    let f = |m: Seq<char>| SilentV { member: m, secs: quiet_for(s, seen, m)->0 as u64 };
    let low = s.roster().take(n);
    if n > 0 {
        lemma_silent(s, seen, n - 1);
        assert(low.drop_last() =~= s.roster().take(n - 1));
        assert(low.last() == s.roster()[n - 1]);
        let less = s.roster().take(n - 1).filter(pass);
        if pass(low.last()) {
            assert(less.push(low.last()).map_values(f) =~= less.map_values(f).push(f(low.last())));
        }
    }
    assert(s.silent_upto(seen, n) =~= low.filter(pass).map_values(f));
}

/// Did that member sign a block of that height that is still held, or was a
/// signature of its for that height verified here?
pub open spec fn signed_for(s: StateV, member: Seq<char>, height: u64) -> bool {
    ||| exists|i: int, j: int|
        0 <= i < s.blocks.len() && 0 <= j < s.blocks[i].sigs.len() && s.blocks[i].height == height
            && (#[trigger] s.blocks[i].sigs[j]).member == member
    ||| peers::height_of(s.seen_signing, member) == Some(height)
}

/// The highest block that a member signed.
proof fn lemma_top_signed(blocks: Seq<BlockV>, member: Seq<char>)
    ensures
        ({
            let top = peers::top_signed(blocks, member);
            &&& forall|i: int, j: int|
                0 <= i < blocks.len() && 0 <= j < blocks[i].sigs.len() && (
                #[trigger] blocks[i].sigs[j]).member == member ==> blocks[i].height <= top
            &&& top > 0 ==> exists|i: int, j: int|
                0 <= i < blocks.len() && 0 <= j < blocks[i].sigs.len() && blocks[i].height == top
                    && (#[trigger] blocks[i].sigs[j]).member == member
        }),
    decreases blocks.len(),
{
    if blocks.len() > 0 {
        let front = blocks.drop_last();
        let last = blocks.last();
        let n = blocks.len() - 1;
        let top = peers::top_signed(blocks, member);
        lemma_top_signed(front, member);
        assert(blocks[n] == last);
        assert forall|i: int, j: int|
            0 <= i < blocks.len() && 0 <= j < blocks[i].sigs.len() && (
            #[trigger] blocks[i].sigs[j]).member == member implies blocks[i].height <= top by {
            if i < n {
                assert(front[i].sigs[j].member == member);
            } else {
                assert(last.sigs[j].member == member);
            }
        }
        if top > 0 {
            if crate::votes::signed_by(last.sigs, member) && last.height > peers::top_signed(
                front,
                member,
            ) {
                let j = choose|j: int|
                    0 <= j < last.sigs.len() && (#[trigger] last.sigs[j]).member == member;
                assert(blocks[n].sigs[j].member == member);
            } else {
                let (i, j) = choose|i: int, j: int|
                    0 <= i < front.len() && 0 <= j < front[i].sigs.len() && front[i].height == top
                        && (#[trigger] front[i].sigs[j]).member == member;
                assert(blocks[i].sigs[j].member == member);
            }
        }
    }
}

/// A seat signed last at the highest height that a signature of its is known
/// for; at none, where none is.
pub proof fn a_seat_signed_last_at_its_highest(s: StateV, member: Seq<char>)
    ensures
        s.last_signed(member) > 0 ==> signed_for(s, member, s.last_signed(member)),
        forall|height: u64| #[trigger]
            signed_for(s, member, height) ==> height <= s.last_signed(member),
{
    lemma_top_signed(s.blocks, member);
}

/// A seat no longer signs where it signed neither of the last two blocks; such
/// seats are shown in roster order, each with the height that it signed last.
pub proof fn the_stale_are_shown_in_roster_order(s: StateV)
    ensures
        s.head is None ==> s.stale().len() == 0,
        s.head is Some ==> s.stale() == s.head->0.identities.map_values(
            |i: IdentityV| i.member,
        ).filter(
            |m: Seq<char>| s.last_signed(m) + 2 <= s.head->0.height,
        ).map_values(|m: Seq<char>| StaleV { member: m, last_signed_height: s.last_signed(m) }),
{
    if s.head is Some {
        let ids = s.head->0.identities;
        lemma_stale(s, ids.len() as int);
        assert(ids.take(ids.len() as int) =~= ids);
    }
}

/// The stale ones among the first seats.
proof fn lemma_stale(s: StateV, n: int)
    requires
        s.head is Some,
        0 <= n <= s.head->0.identities.len(),
    ensures
        s.stale_upto(n) == s.head->0.identities.take(n).map_values(
            |i: IdentityV| i.member,
        ).filter(
            |m: Seq<char>| s.last_signed(m) + 2 <= s.head->0.height,
        ).map_values(|m: Seq<char>| StaleV { member: m, last_signed_height: s.last_signed(m) }),
    decreases n,
{
    reveal(Seq::filter);
    let ids = s.head->0.identities;
    let name = |i: IdentityV| i.member;
    let pass = |m: Seq<char>| s.last_signed(m) + 2 <= s.head->0.height;
    let f = |m: Seq<char>| StaleV { member: m, last_signed_height: s.last_signed(m) };
    let low = ids.take(n).map_values(name);
    if n > 0 {
        lemma_stale(s, n - 1);
        assert(low.drop_last() =~= ids.take(n - 1).map_values(name));
        assert(low.last() == ids[n - 1].member);
        let less = ids.take(n - 1).map_values(name).filter(pass);
        if pass(low.last()) {
            assert(less.push(low.last()).map_values(f) =~= less.map_values(f).push(f(low.last())));
        }
    }
    assert(s.stale_upto(n) =~= low.filter(pass).map_values(f));
}

/// The divergences without a peer's are the others, in order.
proof fn lemma_without(list: Seq<DivergenceV>, peer: Seq<char>)
    ensures
        peers::divergences_without(list, peer) == list.filter(|d: DivergenceV| d.peer != peer),
    decreases list.len(),
{
    reveal(Seq::filter);
    if list.len() > 0 {
        lemma_without(list.drop_last(), peer);
    }
}

/// What is on record of a peer is the first under its name.
proof fn lemma_divergence_of(list: Seq<DivergenceV>, peer: Seq<char>)
    ensures
        match peers::divergence_of(list, peer) {
            Some(d) => list.contains(d) && d.peer == peer,
            None => forall|i: int| 0 <= i < list.len() ==> (#[trigger] list[i]).peer != peer,
        },
    decreases list.len(),
{
    if list.len() > 0 {
        let rest = list.skip(1);
        lemma_divergence_of(rest, peer);
        if list[0].peer == peer {
            assert(list.contains(list[0]));
        } else {
            match peers::divergence_of(rest, peer) {
                Some(d) => {
                    let k = choose|k: int| 0 <= k < rest.len() && rest[k] == d;
                    assert(list[k + 1] == d);
                },
                None => {
                    assert forall|i: int| 0 <= i < list.len() implies (#[trigger] list[i]).peer
                        != peer by {
                        if i > 0 {
                            assert(rest[i - 1] == list[i]);
                        }
                    }
                },
            }
        }
    }
}

/// A peer that is seen on another branch is on record last, as seen now, since
/// the lower of the heights it was seen astray from; every other peer stays as
/// it was. The first sighting is announced, a later one is not.
pub proof fn a_peer_astray_is_on_record(s: StateV, from: Seq<char>, since_height: u64)
    requires
        from.len() > 0,
    ensures
        ({
            let w = s.diverging(from, since_height);
            let d = w.diverged.last();
            let known = exists|i: int|
                0 <= i < s.diverged.len() && (#[trigger] s.diverged[i]).peer == from;
            &&& w.diverged == s.diverged.filter(|x: DivergenceV| x.peer != from).push(d)
            &&& d.peer == from
            &&& d.seen_ts == s.now
            &&& d.since_height <= since_height
            &&& !known ==> d.since_height == since_height && w.effects == s.effects.push(
                EffectV::Emit { event: EventV::SessionChanged },
            ) && w.notice == "chain-diverged:"@ + from + ":"@ + text::dec(since_height as nat)
            &&& known ==> w.effects == s.effects && w.notice == s.notice && exists|i: int|
                0 <= i < s.diverged.len() && (#[trigger] s.diverged[i]).peer == from
                    && d.since_height == (if s.diverged[i].since_height <= since_height {
                    s.diverged[i].since_height
                } else {
                    since_height
                })
            &&& w.blocks == s.blocks
        }),
{
    lemma_without(s.diverged, from);
    lemma_divergence_of(s.diverged, from);
    match peers::divergence_of(s.diverged, from) {
        Some(d) => {
            let i = choose|i: int| 0 <= i < s.diverged.len() && s.diverged[i] == d;
            assert(s.diverged[i].peer == from);
        },
        None => {},
    }
}

/// A peer that is back is on record no more, and that is announced; where it
/// was not on record nothing happens.
pub proof fn a_peer_that_is_back_is_on_record_no_more(s: StateV, from: Seq<char>)
    ensures
        ({
            let w = s.converging(from);
            let known = exists|i: int|
                0 <= i < s.diverged.len() && (#[trigger] s.diverged[i]).peer == from;
            &&& known ==> w.diverged == s.diverged.filter(|x: DivergenceV| x.peer != from)
                && w.effects == s.effects.push(EffectV::Emit { event: EventV::SessionChanged })
            &&& !known ==> w == s
        }),
{
    lemma_without(s.diverged, from);
    lemma_divergence_of(s.diverged, from);
    match peers::divergence_of(s.diverged, from) {
        Some(d) => {
            let i = choose|i: int| 0 <= i < s.diverged.len() && s.diverged[i] == d;
            assert(s.diverged[i].peer == from);
        },
        None => {},
    }
}

} // verus!
