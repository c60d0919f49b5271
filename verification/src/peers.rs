//! What a holder knows of its peers: how high they stand, who is on another
//! branch, who has gone quiet and who no longer signs.

use crate::model::{BlockV, ChainBlock};
use crate::state::{
    ChainDivergence, DivergenceV, Event, EventV, PeerHeight, PeerHeightV, State, StateV,
};
use crate::text;
use crate::text::{append_number, same_text};
use crate::votes;
use crate::votes::has_signed;
use vstd::prelude::*;
use vstd::string::*;

verus! {

/// A seat that nothing was heard of for this many seconds is silent.
pub const SILENT_AFTER_SECS: u64 = 120;

/// A seat is stale once its signature is in none of this many last blocks.
pub const STALE_AFTER_BLOCKS: u64 = 2;

/// When a member was last seen.
#[derive(Debug, PartialEq, Eq)]
pub struct LastSeen {
    pub member: String,
    pub at: u64,
}

/// The model of [`LastSeen`].
pub struct LastSeenV {
    pub member: Seq<char>,
    pub at: u64,
}

impl DeepView for LastSeen {
    type V = LastSeenV;

    open spec fn deep_view(&self) -> LastSeenV {
        LastSeenV {
            member: self.member@,
            at: self.at,
        }
    }
}

impl Clone for LastSeen {
    fn clone(&self) -> (r: Self)
        ensures
            r.deep_view() == self.deep_view(),
    {
        LastSeen {
            member: self.member.clone(),
            at: self.at,
        }
    }
}

/// A member that has gone quiet.
#[derive(Debug, PartialEq, Eq)]
pub struct SilentMember {
    pub member: String,
    /// For how long; zero where that is not known.
    pub secs: u64,
}

/// The model of [`SilentMember`].
pub struct SilentV {
    pub member: Seq<char>,
    pub secs: u64,
}

impl DeepView for SilentMember {
    type V = SilentV;

    open spec fn deep_view(&self) -> SilentV {
        SilentV {
            member: self.member@,
            secs: self.secs,
        }
    }
}

impl Clone for SilentMember {
    fn clone(&self) -> (r: Self)
        ensures
            r.deep_view() == self.deep_view(),
    {
        SilentMember {
            member: self.member.clone(),
            secs: self.secs,
        }
    }
}

/// How far the peers are ahead, and who has gone quiet.
#[derive(Debug, PartialEq, Eq)]
pub struct ChainLag {
    pub peers_ahead: u64,
    pub silent: Vec<SilentMember>,
}

/// The model of [`ChainLag`].
pub struct LagV {
    pub peers_ahead: u64,
    pub silent: Seq<SilentV>,
}

impl DeepView for ChainLag {
    type V = LagV;

    open spec fn deep_view(&self) -> LagV {
        LagV {
            peers_ahead: self.peers_ahead,
            silent: self.silent.deep_view(),
        }
    }
}

impl Clone for ChainLag {
    fn clone(&self) -> (r: Self)
        ensures
            r.deep_view() == self.deep_view(),
    {
        ChainLag {
            peers_ahead: self.peers_ahead,
            silent: self.silent.clone(),
        }
    }
}

/// A seat that no longer signs.
#[derive(Debug, PartialEq, Eq)]
pub struct StaleSigner {
    pub member: String,
    pub last_signed_height: u64,
}

/// The model of [`StaleSigner`].
pub struct StaleV {
    pub member: Seq<char>,
    pub last_signed_height: u64,
}

impl DeepView for StaleSigner {
    type V = StaleV;

    open spec fn deep_view(&self) -> StaleV {
        StaleV {
            member: self.member@,
            last_signed_height: self.last_signed_height,
        }
    }
}

impl Clone for StaleSigner {
    fn clone(&self) -> (r: Self)
        ensures
            r.deep_view() == self.deep_view(),
    {
        StaleSigner {
            member: self.member.clone(),
            last_signed_height: self.last_signed_height,
        }
    }
}

/// The larger of two numbers.
fn at_least(a: u64, b: u64) -> (r: u64)
    ensures
        r == (if a >= b {
            a
        } else {
            b
        }),
{
    if a >= b {
        a
    } else {
        b
    }
}

/// The highest height on record for a member.
pub open spec fn height_of(list: Seq<PeerHeightV>, member: Seq<char>) -> Option<u64>
    decreases list.len(),
{
    if list.len() == 0 {
        None
    } else if list[0].member == member {
        Some(list[0].height)
    } else {
        height_of(list.skip(1), member)
    }
}

/// The heights with one more on record: a member's height never falls.
pub open spec fn heights_with(list: Seq<PeerHeightV>, member: Seq<char>, height: u64) -> Seq<
    PeerHeightV,
>
    decreases list.len(),
{
    if list.len() == 0 {
        seq![PeerHeightV { member, height }]
    } else if list[0].member == member {
        seq![
            PeerHeightV {
                member,
                height: if list[0].height >= height {
                    list[0].height
                } else {
                    height
                },
            },
        ] + list.skip(1)
    } else {
        seq![list[0]] + heights_with(list.skip(1), member, height)
    }
}

/// A member's height never falls, and everybody else's stays.
pub proof fn a_height_on_record_never_falls(
    list: Seq<PeerHeightV>,
    member: Seq<char>,
    height: u64,
    other: Seq<char>,
)
    ensures
        height_of(list, other) is Some ==> height_of(heights_with(list, member, height), other) is Some
            && height_of(heights_with(list, member, height), other)->0 >= height_of(list, other)->0,
        other != member ==> height_of(heights_with(list, member, height), other) == height_of(
            list,
            other,
        ),
        height_of(heights_with(list, member, height), member) is Some,
        height_of(heights_with(list, member, height), member)->0 >= height,
    decreases list.len(),
{
    let out = heights_with(list, member, height);
    if list.len() > 0 {
        assert(out.skip(1) =~= if list[0].member == member {
            list.skip(1)
        } else {
            heights_with(list.skip(1), member, height)
        });
        if list[0].member != member {
            a_height_on_record_never_falls(list.skip(1), member, height, other);
        }
    } else {
        assert(out.skip(1) =~= Seq::empty());
        reveal_with_fuel(height_of, 2);
    }
}

/// Records a height for a member.
pub fn record_height(list: &mut Vec<PeerHeight>, member: &str, height: u64)
    ensures
        final(list).deep_view() == heights_with(old(list).deep_view(), member@, height),
{
    let ghost all = list.deep_view();
    let mut i: usize = 0;
    proof {
        assert(all.skip(0) =~= all);
        assert(all.take(0) + heights_with(all.skip(0), member@, height) =~= heights_with(
            all,
            member@,
            height,
        ));
    }
    while i < list.len()
        invariant
            i <= list.len(),
            all == list.deep_view(),
            all == old(list).deep_view(),
            heights_with(all, member@, height) == all.take(i as int) + heights_with(
                all.skip(i as int),
                member@,
                height,
            ),
        decreases list.len() - i,
    {
        proof {
            assert(all.skip(i as int)[0] == list@[i as int].deep_view());
            assert(all.skip(i as int).skip(1) =~= all.skip(i + 1));
        }
        if same_text(list[i].member.as_str(), member) {
            let top: u64 = at_least(list[i].height, height);
            let entry = PeerHeight { member: member.to_owned(), height: top };
            list[i] = entry;
            proof {
                assert(list.deep_view() =~= all.take(i as int) + (seq![entry.deep_view()]
                    + all.skip(i + 1)));
            }
            return;
        }
        proof {
            assert(all.take(i as int) + (seq![all[i as int]] + heights_with(
                all.skip(i + 1),
                member@,
                height,
            )) =~= all.take(i + 1) + heights_with(all.skip(i + 1), member@, height));
        }
        i = i + 1;
    }
    let entry = PeerHeight { member: member.to_owned(), height };
    list.push(entry);
    proof {
        assert(all.skip(i as int) =~= Seq::empty());
        assert(all.take(i as int) =~= all);
        assert(list.deep_view() =~= all.push(entry.deep_view()));
        assert(all + seq![entry.deep_view()] =~= all.push(entry.deep_view()));
    }
}

/// The highest height on record for a member.
pub fn find_height(list: &Vec<PeerHeight>, member: &str) -> (r: Option<u64>)
    ensures
        r == height_of(list.deep_view(), member@),
{
    let ghost all = list.deep_view();
    let mut i: usize = 0;
    assert(all.skip(0) =~= all);
    while i < list.len()
        invariant
            i <= list.len(),
            all == list.deep_view(),
            height_of(all, member@) == height_of(all.skip(i as int), member@),
        decreases list.len() - i,
    {
        assert(all.skip(i as int)[0] == list@[i as int].deep_view());
        if same_text(list[i].member.as_str(), member) {
            return Some(list[i].height);
        }
        assert(all.skip(i as int).skip(1) =~= all.skip(i + 1));
        i = i + 1;
    }
    None
}

/// The highest height on record at all; zero where there is none.
pub open spec fn top_height(list: Seq<PeerHeightV>) -> u64
    decreases list.len(),
{
    if list.len() == 0 {
        0
    } else {
        let rest = top_height(list.drop_last());
        if rest >= list.last().height {
            rest
        } else {
            list.last().height
        }
    }
}

/// When a member was last seen.
pub open spec fn seen_at(list: Seq<LastSeenV>, member: Seq<char>) -> Option<u64>
    decreases list.len(),
{
    if list.len() == 0 {
        None
    } else if list[0].member == member {
        Some(list[0].at)
    } else {
        seen_at(list.skip(1), member)
    }
}

/// When a member was last seen.
pub fn find_seen(list: &Vec<LastSeen>, member: &str) -> (r: Option<u64>)
    ensures
        r == seen_at(list.deep_view(), member@),
{
    let ghost all = list.deep_view();
    let mut i: usize = 0;
    assert(all.skip(0) =~= all);
    while i < list.len()
        invariant
            i <= list.len(),
            all == list.deep_view(),
            seen_at(all, member@) == seen_at(all.skip(i as int), member@),
        decreases list.len() - i,
    {
        assert(all.skip(i as int)[0] == list@[i as int].deep_view());
        if same_text(list[i].member.as_str(), member) {
            return Some(list[i].at);
        }
        assert(all.skip(i as int).skip(1) =~= all.skip(i + 1));
        i = i + 1;
    }
    None
}

/// The seconds from `then` to `now`; none before it.
pub open spec fn since(now: u64, then: u64) -> u64 {
    if now >= then {
        (now - then) as u64
    } else {
        0
    }
}

/// Is a member silent, and for how long? One that was never seen counts from
/// the founding; without a founding date it is silent for an unknown time.
pub open spec fn silence(now: u64, founded: u64, seen: Option<u64>) -> Option<u64> {
    match seen {
        None if founded == 0 => Some(0),
        None => if since(now, founded) >= SILENT_AFTER_SECS {
            Some(since(now, founded))
        } else {
            None
        },
        Some(at) => if since(now, at) >= SILENT_AFTER_SECS {
            Some(since(now, at))
        } else {
            None
        },
    }
}

/// Is a member silent, and for how long?
fn silent_for(now: u64, founded: u64, seen: Option<u64>) -> (r: Option<u64>)
    ensures
        r == silence(now, founded, seen),
{
    let then: u64 = match seen {
        Some(at) => at,
        None => {
            if founded == 0 {
                return Some(0);
            }
            founded
        },
    };
    let secs: u64 = if now >= then {
        now - then
    } else {
        0
    };
    if secs >= SILENT_AFTER_SECS {
        Some(secs)
    } else {
        None
    }
}

/// The highest of the blocks that a member signed; zero where it signed none.
pub open spec fn top_signed(blocks: Seq<BlockV>, member: Seq<char>) -> u64
    decreases blocks.len(),
{
    if blocks.len() == 0 {
        0
    } else {
        let rest = top_signed(blocks.drop_last(), member);
        if votes::signed_by(blocks.last().sigs, member) && blocks.last().height > rest {
            blocks.last().height
        } else {
            rest
        }
    }
}

/// The highest of the blocks that a member signed.
fn find_top_signed(blocks: &Vec<ChainBlock>, member: &str) -> (r: u64)
    ensures
        r == top_signed(blocks.deep_view(), member@),
{
    let ghost all = blocks.deep_view();
    let mut top: u64 = 0;
    let mut i: usize = 0;
    assert(all.take(0) =~= Seq::empty());
    while i < blocks.len()
        invariant
            i <= blocks.len(),
            all == blocks.deep_view(),
            top == top_signed(all.take(i as int), member@),
        decreases blocks.len() - i,
    {
        proof {
            assert(all.take(i + 1).drop_last() =~= all.take(i as int));
            assert(all.take(i + 1).last() == blocks@[i as int].deep_view());
        }
        if has_signed(&blocks[i].sigs, member) && blocks[i].height > top {
            top = blocks[i].height;
        }
        i = i + 1;
    }
    assert(all.take(i as int) =~= all);
    top
}

/// The divergence on record for a peer.
pub open spec fn divergence_of(list: Seq<DivergenceV>, peer: Seq<char>) -> Option<DivergenceV>
    decreases list.len(),
{
    if list.len() == 0 {
        None
    } else if list[0].peer == peer {
        Some(list[0])
    } else {
        divergence_of(list.skip(1), peer)
    }
}

/// The divergences without a peer's.
pub open spec fn divergences_without(list: Seq<DivergenceV>, peer: Seq<char>) -> Seq<DivergenceV>
    decreases list.len(),
{
    if list.len() == 0 {
        list
    } else if list.last().peer == peer {
        divergences_without(list.drop_last(), peer)
    } else {
        divergences_without(list.drop_last(), peer).push(list.last())
    }
}

/// The divergence on record for a peer.
fn find_divergence(list: &Vec<ChainDivergence>, peer: &str) -> (r: Option<ChainDivergence>)
    ensures
        r.deep_view() == divergence_of(list.deep_view(), peer@),
{
    let ghost all = list.deep_view();
    let mut i: usize = 0;
    assert(all.skip(0) =~= all);
    while i < list.len()
        invariant
            i <= list.len(),
            all == list.deep_view(),
            divergence_of(all, peer@) == divergence_of(all.skip(i as int), peer@),
        decreases list.len() - i,
    {
        assert(all.skip(i as int)[0] == list@[i as int].deep_view());
        if same_text(list[i].peer.as_str(), peer) {
            return Some(list[i].clone());
        }
        assert(all.skip(i as int).skip(1) =~= all.skip(i + 1));
        i = i + 1;
    }
    None
}

/// The divergences without a peer's.
fn drop_divergence(list: &Vec<ChainDivergence>, peer: &str) -> (r: Vec<ChainDivergence>)
    ensures
        r.deep_view() == divergences_without(list.deep_view(), peer@),
{
    let ghost all = list.deep_view();
    let mut out: Vec<ChainDivergence> = Vec::new();
    let mut i: usize = 0;
    assert(all.take(0) =~= Seq::empty());
    assert(out.deep_view() =~= Seq::empty());
    while i < list.len()
        invariant
            i <= list.len(),
            all == list.deep_view(),
            out.deep_view() == divergences_without(all.take(i as int), peer@),
        decreases list.len() - i,
    {
        let ghost done = out.deep_view();
        proof {
            assert(all.take(i + 1).drop_last() =~= all.take(i as int));
            assert(all.take(i + 1).last() == list@[i as int].deep_view());
        }
        if !same_text(list[i].peer.as_str(), peer) {
            out.push(list[i].clone());
            assert(out.deep_view() =~= done.push(list@[i as int].deep_view()));
        }
        i = i + 1;
    }
    assert(all.take(i as int) =~= all);
    out
}

/// The notice that a peer is on another branch.
pub open spec fn divergence_notice(peer: Seq<char>, since_height: u64) -> Seq<char> {
    "chain-diverged:"@ + peer + ":"@ + text::dec(since_height as nat)
}

impl StateV {
    /// The highest height that a peer claimed, on record.
    pub open spec fn peer_noted(self, from: Seq<char>, height: u64) -> StateV {
        if from.len() == 0 || from == self.me() {
            self
        } else {
            StateV { peer_heights: heights_with(self.peer_heights, from, height), ..self }
        }
    }

    /// A verified signature of a seat for that height, on record.
    pub open spec fn signer_noted(self, member: Seq<char>, height: u64) -> StateV {
        StateV { seen_signing: heights_with(self.seen_signing, member, height), ..self }
    }

    /// A peer on another branch since `since_height`. An earlier sighting
    /// keeps its lower height; a new one is announced.
    pub open spec fn diverging(self, from: Seq<char>, since_height: u64) -> StateV {
        if from.len() == 0 {
            self
        } else {
            match divergence_of(self.diverged, from) {
                Some(d) => StateV {
                    diverged: divergences_without(self.diverged, from).push(
                        DivergenceV {
                            peer: from,
                            since_height: if d.since_height <= since_height {
                                d.since_height
                            } else {
                                since_height
                            },
                            seen_ts: self.now,
                        },
                    ),
                    ..self
                },
                None => (StateV {
                    diverged: divergences_without(self.diverged, from).push(
                        DivergenceV { peer: from, since_height, seen_ts: self.now },
                    ),
                    notice: divergence_notice(from, since_height),
                    ..self
                }).emitting(EventV::SessionChanged),
            }
        }
    }

    /// A peer that is back on this branch.
    pub open spec fn converging(self, from: Seq<char>) -> StateV {
        if divergence_of(self.diverged, from) is Some {
            (StateV { diverged: divergences_without(self.diverged, from), ..self }).emitting(
                EventV::SessionChanged,
            )
        } else {
            self
        }
    }

    /// The silent members among the first `n` seats.
    pub open spec fn silent_upto(self, seen: Seq<LastSeenV>, n: int) -> Seq<SilentV>
        decreases n,
    {
        if n <= 0 {
            Seq::empty()
        } else {
            let rest = self.silent_upto(seen, n - 1);
            let member = self.roster()[n - 1];
            let founded = match self.replica {
                Some(r) => r.founded_ts,
                None => 0,
            };
            match silence(self.now, founded, seen_at(seen, member)) {
                Some(secs) if member != self.me() => rest.push(SilentV { member, secs }),
                _ => rest,
            }
        }
    }

    /// How far the peers are ahead, and who has gone quiet.
    pub open spec fn lag(self, seen: Seq<LastSeenV>) -> LagV {
        LagV {
            peers_ahead: since(top_height(self.peer_heights), self.height()),
            silent: self.silent_upto(seen, self.roster().len() as int),
        }
    }

    /// The height that a seat signed for last: in a block still held, or
    /// verified here before a seal.
    pub open spec fn last_signed(self, member: Seq<char>) -> u64 {
        let sealed = top_signed(self.blocks, member);
        match height_of(self.seen_signing, member) {
            Some(seen) if seen > sealed => seen,
            _ => sealed,
        }
    }

    /// The stale seats among the first `n`.
    pub open spec fn stale_upto(self, n: int) -> Seq<StaleV>
        decreases n,
    {
        if n <= 0 {
            Seq::empty()
        } else {
            let rest = self.stale_upto(n - 1);
            let member = self.head->0.identities[n - 1].member;
            let last = self.last_signed(member);
            if last + STALE_AFTER_BLOCKS <= self.head->0.height {
                rest.push(StaleV { member, last_signed_height: last })
            } else {
                rest
            }
        }
    }

    /// The seats that no longer sign, in roster order.
    pub open spec fn stale(self) -> Seq<StaleV> {
        match self.head {
            Some(head) => self.stale_upto(head.identities.len() as int),
            None => Seq::empty(),
        }
    }
}

impl State {
    /// Records the highest height that a peer claimed. One late re-serve of
    /// an old block cannot make it look as if it fell behind.
    pub fn note_peer_height(&mut self, from: &str, height: u64)
        ensures
            final(self).deep_view() == old(self).deep_view().peer_noted(from@, height),
    {
        let me = self.member();
        if from.is_empty() || same_text(from, me.as_str()) {
            return;
        }
        record_height(&mut self.peer_heights, from, height);
    }

    /// Records a verified signature of a seat for that height.
    pub fn note_signer(&mut self, member: &str, height: u64)
        ensures
            final(self).deep_view() == old(self).deep_view().signer_noted(member@, height),
    {
        record_height(&mut self.seen_signing, member, height);
    }

    /// Remembers that a peer is on another branch.
    pub fn note_divergence(&mut self, from: &str, since_height: u64)
        ensures
            final(self).deep_view() == old(self).deep_view().diverging(from@, since_height),
    {
        if from.is_empty() {
            return;
        }
        let known = find_divergence(&self.diverged, from);
        let mut list = drop_divergence(&self.diverged, from);
        let ghost others = list.deep_view();
        let mut lowest: u64 = since_height;
        let mut fresh = true;
        match known {
            Some(d) => {
                fresh = false;
                if d.since_height <= lowest {
                    lowest = d.since_height;
                }
            },
            None => {},
        }
        let entry = ChainDivergence { peer: from.to_owned(), since_height: lowest, seen_ts: self.now };
        list.push(entry);
        assert(list.deep_view() =~= others.push(entry.deep_view()));
        self.diverged = list;
        if fresh {
            let mut line = "chain-diverged:".to_owned();
            line.append(from);
            line.append(":");
            append_number(&mut line, since_height);
            self.notice = line;
            self.emit(Event::SessionChanged);
        }
    }

    /// Forgets a divergence: the peer is back on this branch.
    pub fn clear_divergence(&mut self, from: &str)
        ensures
            final(self).deep_view() == old(self).deep_view().converging(from@),
    {
        if find_divergence(&self.diverged, from).is_some() {
            self.diverged = drop_divergence(&self.diverged, from);
            self.emit(Event::SessionChanged);
        }
    }

    /// How far the peers are ahead, and who has gone quiet: the two facts that
    /// a cut-off seat cannot see for itself. `seen` says when each member was
    /// last seen; one that is not there was never seen.
    pub fn chain_lag(&self, seen: &Vec<LastSeen>) -> (r: ChainLag)
        ensures
            r.deep_view() == self.deep_view().lag(seen.deep_view()),
    {
        let ghost s = self.deep_view();
        let ghost peers = s.peer_heights;
        let mut top: u64 = 0;
        let mut i: usize = 0;
        assert(peers.take(0) =~= Seq::empty());
        while i < self.peer_heights.len()
            invariant
                i <= self.peer_heights.len(),
                s == self.deep_view(),
                peers == s.peer_heights,
                top == top_height(peers.take(i as int)),
            decreases self.peer_heights.len() - i,
        {
            proof {
                assert(peers.take(i + 1).drop_last() =~= peers.take(i as int));
                assert(peers.take(i + 1).last() == self.peer_heights@[i as int].deep_view());
            }
            top = at_least(top, self.peer_heights[i].height);
            i = i + 1;
        }
        assert(peers.take(i as int) =~= peers);
        let head: u64 = match &self.head {
            Some(h) => h.height,
            None => 0,
        };
        let founded: u64 = match &self.replica {
            Some(r) => r.founded_ts,
            None => 0,
        };
        let me = self.member();
        let roster = self.roster();
        let ghost names = roster.deep_view();
        let mut silent: Vec<SilentMember> = Vec::new();
        let mut j: usize = 0;
        assert(silent.deep_view() =~= Seq::empty());
        while j < roster.len()
            invariant
                j <= roster.len(),
                s == self.deep_view(),
                names == roster.deep_view(),
                names == s.roster(),
                me@ == s.me(),
                founded == (match s.replica {
                    Some(r) => r.founded_ts,
                    None => 0,
                }),
                silent.deep_view() == s.silent_upto(seen.deep_view(), j as int),
            decreases roster.len() - j,
        {
            let ghost done = silent.deep_view();
            assert(names[j as int] == roster@[j as int]@);
            let at = find_seen(seen, roster[j].as_str());
            match silent_for(self.now, founded, at) {
                Some(secs) => {
                    if !same_text(roster[j].as_str(), me.as_str()) {
                        let entry = SilentMember { member: roster[j].clone(), secs };
                        silent.push(entry);
                        assert(silent.deep_view() =~= done.push(entry.deep_view()));
                    }
                },
                None => {},
            }
            j = j + 1;
        }
        let ahead: u64 = if top >= head {
            top - head
        } else {
            0
        };
        ChainLag { peers_ahead: ahead, silent }
    }

    /// The seats that no longer sign, in roster order. Such a seat is silent,
    /// not on another branch.
    pub fn stale_signers(&self) -> (r: Vec<StaleSigner>)
        ensures
            r.deep_view() == self.deep_view().stale(),
    {
        let ghost s = self.deep_view();
        let mut out: Vec<StaleSigner> = Vec::new();
        assert(out.deep_view() =~= Seq::empty());
        match &self.head {
            Some(head) => {
                let ghost ids = head.identities.deep_view();
                let mut i: usize = 0;
                while i < head.identities.len()
                    invariant
                        i <= head.identities.len(),
                        s == self.deep_view(),
                        s.head == Some(head.deep_view()),
                        ids == head.identities.deep_view(),
                        out.deep_view() == s.stale_upto(i as int),
                    decreases head.identities.len() - i,
                {
                    let ghost done = out.deep_view();
                    assert(ids[i as int] == head.identities@[i as int].deep_view());
                    let member = &head.identities[i].member;
                    let mut last: u64 = find_top_signed(&self.blocks, member.as_str());
                    match find_height(&self.seen_signing, member.as_str()) {
                        Some(seen) => {
                            if seen > last {
                                last = seen;
                            }
                        },
                        None => {},
                    }
                    if head.height >= STALE_AFTER_BLOCKS && last <= head.height - STALE_AFTER_BLOCKS {
                        let entry = StaleSigner {
                            member: member.clone(),
                            last_signed_height: last,
                        };
                        out.push(entry);
                        assert(out.deep_view() =~= done.push(entry.deep_view()));
                    }
                    i = i + 1;
                }
            },
            None => {},
        }
        out
    }
}

} // verus!
