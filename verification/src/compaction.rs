//! Compaction: after its time and a grace, a message does not merely leave the
//! view, it stops existing on this device. Decided here are when that happens,
//! what goes, and which members still hold the log.

use crate::chat;
use crate::chat::{find_message, DAY_SECS};
use crate::chat_model::{
    ChatEffect, ChatEffectV, ChatMessage, ChatNotice, ChatNoticeV, ChatState, ChatV, MessageV,
    PrunedCount, PrunedV, SharePath, ShareV,
};
use crate::peers;
use crate::peers::{find_seen, LastSeen, LastSeenV};
use crate::text::same_text;
use vstd::prelude::*;

verus! {

/// One round a day for each open workspace.
pub const COMPACT_EVERY_SECS: u64 = 86_400;

/// A message goes for good one further window after it left the view.
pub const CONTENT_GRACE_WINDOWS: u64 = 1;

/// A member that was not seen for this many windows holds the log no longer.
pub const PEER_GRACE_WINDOWS: u64 = 2;

/// Is a message of that time kept? One whose age is not known is.
pub open spec fn stays(ts: u64, cutoff: u64) -> bool {
    ts == 0 || ts >= cutoff
}

/// The messages that are kept, in order.
pub open spec fn kept_since(messages: Seq<MessageV>, cutoff: u64) -> Seq<MessageV>
    decreases messages.len(),
{
    if messages.len() == 0 {
        messages
    } else {
        let rest = kept_since(messages.drop_last(), cutoff);
        if stays(messages.last().ts, cutoff) {
            rest.push(messages.last())
        } else {
            rest
        }
    }
}

/// How many messages of a member are on record as dropped.
pub open spec fn dropped_of(counts: Seq<PrunedV>, member: Seq<char>) -> u64
    decreases counts.len(),
{
    if counts.len() == 0 {
        0
    } else if counts[0].member == member {
        counts[0].count
    } else {
        dropped_of(counts.skip(1), member)
    }
}

/// The counts with one more message of a member.
pub open spec fn counts_with(counts: Seq<PrunedV>, member: Seq<char>) -> Seq<PrunedV>
    decreases counts.len(),
{
    if counts.len() == 0 {
        seq![PrunedV { member, count: 1 }]
    } else if counts[0].member == member {
        seq![
            PrunedV {
                member,
                count: if counts[0].count < u64::MAX {
                    (counts[0].count + 1) as u64
                } else {
                    counts[0].count
                },
            },
        ] + counts.skip(1)
    } else {
        seq![counts[0]] + counts_with(counts.skip(1), member)
    }
}

/// The counts with every dropped message.
pub open spec fn counts_after(counts: Seq<PrunedV>, messages: Seq<MessageV>, cutoff: u64) -> Seq<
    PrunedV,
>
    decreases messages.len(),
{
    if messages.len() == 0 {
        counts
    } else {
        let rest = counts_after(counts, messages.drop_last(), cutoff);
        if stays(messages.last().ts, cutoff) {
            rest
        } else {
            counts_with(rest, messages.last().from)
        }
    }
}

/// The shares whose message is still there.
pub open spec fn live_shares(shares: Seq<ShareV>, messages: Seq<MessageV>) -> Seq<ShareV>
    decreases shares.len(),
{
    if shares.len() == 0 {
        shares
    } else {
        let rest = live_shares(shares.drop_last(), messages);
        if chat::place_of(messages, shares.last().id) is Some {
            rest.push(shares.last())
        } else {
            rest
        }
    }
}

/// Counts one more message of a member.
fn count_dropped(counts: &mut Vec<PrunedCount>, member: &str)
    ensures
        final(counts).deep_view() == counts_with(old(counts).deep_view(), member@),
{
    let ghost all = counts.deep_view();
    let mut i: usize = 0;
    proof {
        assert(all.skip(0) =~= all);
        assert(all.take(0) + counts_with(all.skip(0), member@) =~= counts_with(all, member@));
    }
    while i < counts.len()
        invariant
            i <= counts.len(),
            all == counts.deep_view(),
            all == old(counts).deep_view(),
            counts_with(all, member@) == all.take(i as int) + counts_with(
                all.skip(i as int),
                member@,
            ),
        decreases counts.len() - i,
    {
        proof {
            assert(all.skip(i as int)[0] == counts@[i as int].deep_view());
            assert(all.skip(i as int).skip(1) =~= all.skip(i + 1));
        }
        if same_text(counts[i].member.as_str(), member) {
            let mut entry = counts[i].clone();
            if entry.count < u64::MAX {
                entry.count = entry.count + 1;
            }
            counts[i] = entry;
            proof {
                assert(counts.deep_view() =~= all.take(i as int) + (seq![entry.deep_view()]
                    + all.skip(i + 1)));
            }
            return;
        }
        proof {
            assert(all.take(i as int) + (seq![all[i as int]] + counts_with(
                all.skip(i + 1),
                member@,
            )) =~= all.take(i + 1) + counts_with(all.skip(i + 1), member@));
        }
        i = i + 1;
    }
    let entry = PrunedCount { member: member.to_owned(), count: 1 };
    counts.push(entry);
    proof {
        assert(all.skip(i as int) =~= Seq::empty());
        assert(all.take(i as int) =~= all);
        assert(counts.deep_view() =~= all.push(entry.deep_view()));
        assert(all + seq![entry.deep_view()] =~= all.push(entry.deep_view()));
    }
}

/// The shares whose message is still there.
fn keep_live_shares(shares: &Vec<SharePath>, messages: &Vec<ChatMessage>) -> (r: Vec<SharePath>)
    ensures
        r.deep_view() == live_shares(shares.deep_view(), messages.deep_view()),
        r.len() <= shares.len(),
{
    let ghost all = shares.deep_view();
    let mut out: Vec<SharePath> = Vec::new();
    let mut i: usize = 0;
    assert(all.take(0) =~= Seq::empty());
    assert(out.deep_view() =~= Seq::empty());
    while i < shares.len()
        invariant
            i <= shares.len(),
            all == shares.deep_view(),
            out.len() <= i,
            out.deep_view() == live_shares(all.take(i as int), messages.deep_view()),
        decreases shares.len() - i,
    {
        let ghost done = out.deep_view();
        proof {
            assert(all.take(i + 1).drop_last() =~= all.take(i as int));
            assert(all.take(i + 1).last() == shares@[i as int].deep_view());
        }
        if find_message(messages, &shares[i].id).is_some() {
            out.push(shares[i].clone());
            assert(out.deep_view() =~= done.push(shares@[i as int].deep_view()));
        }
        i = i + 1;
    }
    assert(all.take(i as int) =~= all);
    out
}

/// The seconds of that many retention windows.
pub open spec fn window_secs(days: u64, windows: u64) -> int {
    days * DAY_SECS * windows
}

/// The seconds of that many retention windows, where a clock can count them.
fn count_window(days: u64, windows: u64) -> (r: Option<u64>)
    requires
        windows > 0,
    ensures
        match r {
            Some(n) => n == window_secs(days, windows),
            None => window_secs(days, windows) > u64::MAX,
        },
{
    match days.checked_mul(DAY_SECS) {
        Some(w) => w.checked_mul(windows),
        None => {
            proof {
                let w = days * DAY_SECS;
                assert(w * windows >= w) by (nonlinear_arith)
                    requires
                        w >= 0,
                        windows > 0,
                ;
            }
            None
        },
    }
}

impl ChatV {
    /// The time before which a message goes for good.
    pub open spec fn final_cutoff(self, now: u64) -> u64 {
        if now >= window_secs(self.retention_days, (1 + CONTENT_GRACE_WINDOWS) as u64) {
            (now - window_secs(self.retention_days, (1 + CONTENT_GRACE_WINDOWS) as u64)) as u64
        } else {
            0
        }
    }

    /// Does a member hold the log? One that was seen lately does; one that was
    /// never seen counts from the beginning of time.
    pub open spec fn holds(self, now: u64, seen: Seq<LastSeenV>, member: Seq<char>) -> bool {
        let at = match peers::seen_at(seen, member) {
            Some(at) => at,
            None => 0,
        };
        &&& member != self.me
        &&& peers::since(now, at) <= window_secs(self.retention_days, PEER_GRACE_WINDOWS)
    }

    /// The members among the first `n` that hold the log.
    pub open spec fn holding(self, now: u64, seen: Seq<LastSeenV>, n: int) -> Seq<Seq<char>>
        decreases n,
    {
        if n <= 0 {
            Seq::empty()
        } else {
            let rest = self.holding(now, seen, n - 1);
            if self.holds(now, seen, self.roster[n - 1]) {
                rest.push(self.roster[n - 1])
            } else {
                rest
            }
        }
    }

    /// How many messages a round drops.
    pub open spec fn drops(self, cutoff: u64) -> int {
        self.messages.len() - kept_since(self.messages, cutoff).len()
    }

    /// The chat after a round: what was dropped is counted, and a share goes
    /// with its message.
    pub open spec fn compacted(self, cutoff: u64) -> ChatV {
        let kept = kept_since(self.messages, cutoff);
        let shares = live_shares(self.share_paths, kept);
        if kept.len() == self.messages.len() {
            self
        } else {
            let trimmed = ChatV {
                messages: kept,
                pruned: true,
                pruned_counts: counts_after(self.pruned_counts, self.messages, cutoff),
                share_paths: shares,
                ..self
            };
            if shares.len() == self.share_paths.len() {
                trimmed
            } else {
                trimmed.doing(ChatEffectV::SavePrefs)
            }
        }
    }

    /// One round, and what the host has to do for it.
    pub open spec fn compacting(self, now: u64, wait: bool, seen: Seq<LastSeenV>) -> ChatV {
        let cutoff = self.final_cutoff(now);
        let after = self.compacted(cutoff);
        if self.drops(cutoff) == 0 || !self.stored {
            after
        } else {
            after.doing(
                ChatEffectV::CompactLog {
                    holding: self.holding(now, seen, self.roster.len() as int),
                    wait,
                },
            ).telling(ChatNoticeV::Session)
        }
    }

    /// Is a round due?
    pub open spec fn due(self, now: u64) -> bool {
        self.stored && peers::since(now, self.compacted_at) >= COMPACT_EVERY_SECS
    }

    /// A round, if one is due.
    pub open spec fn beating(self, now: u64, seen: Seq<LastSeenV>) -> ChatV {
        if self.due(now) {
            (ChatV { compacted_at: now, ..self }).compacting(now, false, seen)
        } else {
            self
        }
    }
}

impl ChatState {
    /// The time before which a message goes for good.
    pub fn compaction_cutoff(&self, now: u64) -> (r: u64)
        ensures
            r == self.deep_view().final_cutoff(now),
    {
        match count_window(self.retention_days, 1 + CONTENT_GRACE_WINDOWS) {
            Some(secs) => {
                if now >= secs {
                    now - secs
                } else {
                    0
                }
            },
            None => 0,
        }
    }

    /// The members whose place in the log is still waited for. A member that
    /// is away for longer catches up over the chain.
    pub fn peers_holding_the_log(&self, now: u64, seen: &Vec<LastSeen>) -> (r: Vec<String>)
        ensures
            r.deep_view() == self.deep_view().holding(
                now,
                seen.deep_view(),
                self.deep_view().roster.len() as int,
            ),
    {
        let grace = count_window(self.retention_days, PEER_GRACE_WINDOWS);
        let ghost v = self.deep_view();
        let mut out: Vec<String> = Vec::new();
        let mut i: usize = 0;
        assert(out.deep_view() =~= Seq::empty());
        while i < self.roster.len()
            invariant
                i <= self.roster.len(),
                v == self.deep_view(),
                match grace {
                    Some(n) => n == window_secs(v.retention_days, PEER_GRACE_WINDOWS),
                    None => window_secs(v.retention_days, PEER_GRACE_WINDOWS) > u64::MAX,
                },
                out.deep_view() == v.holding(now, seen.deep_view(), i as int),
            decreases self.roster.len() - i,
        {
            let ghost done = out.deep_view();
            let member = &self.roster[i];
            assert(v.roster[i as int] == member@);
            let at: u64 = match find_seen(seen, member.as_str()) {
                Some(at) => at,
                None => 0,
            };
            let away: u64 = if now >= at {
                now - at
            } else {
                0
            };
            let waits: bool = match grace {
                Some(n) => away <= n,
                None => true,
            };
            if waits && !same_text(member.as_str(), self.me.as_str()) {
                out.push(member.clone());
                assert(out.deep_view() =~= done.push(member@));
            }
            i = i + 1;
        }
        out
    }

    /// Drops what is older than the cutoff for good; says how many messages
    /// went, if any did.
    pub fn compact_chat(&mut self, cutoff: u64) -> (r: Option<usize>)
        ensures
            final(self).deep_view() == old(self).deep_view().compacted(cutoff),
            match r {
                Some(n) => n > 0 && n == old(self).deep_view().drops(cutoff),
                None => old(self).deep_view().drops(cutoff) == 0,
            },
    {
        let ghost start = self.deep_view();
        let ghost all = self.messages.deep_view();
        let mut kept: Vec<ChatMessage> = Vec::new();
        let mut counts: Vec<PrunedCount> = self.pruned_counts.clone();
        let mut i: usize = 0;
        assert(all.take(0) =~= Seq::empty());
        assert(kept.deep_view() =~= Seq::empty());
        while i < self.messages.len()
            invariant
                i <= self.messages.len(),
                start == old(self).deep_view(),
                self.deep_view() == start,
                all == start.messages,
                kept.len() <= i,
                kept.deep_view() == kept_since(all.take(i as int), cutoff),
                counts.deep_view() == counts_after(
                    start.pruned_counts,
                    all.take(i as int),
                    cutoff,
                ),
            decreases self.messages.len() - i,
        {
            let ghost done = kept.deep_view();
            proof {
                assert(all.take(i + 1).drop_last() =~= all.take(i as int));
                assert(all.take(i + 1).last() == self.messages@[i as int].deep_view());
            }
            let ts: u64 = self.messages[i].ts;
            if ts == 0 || ts >= cutoff {
                kept.push(self.messages[i].clone());
                assert(kept.deep_view() =~= done.push(self.messages@[i as int].deep_view()));
            } else {
                count_dropped(&mut counts, self.messages[i].from.as_str());
            }
            i = i + 1;
        }
        assert(all.take(i as int) =~= all);
        let dropped: usize = self.messages.len() - kept.len();
        if dropped == 0 {
            return None;
        }
        let shares = keep_live_shares(&self.share_paths, &kept);
        let fewer: bool = shares.len() != self.share_paths.len();
        self.messages = kept;
        self.pruned = true;
        self.pruned_counts = counts;
        self.share_paths = shares;
        if fewer {
            let ghost before = self.effects.deep_view();
            self.effects.push(ChatEffect::SavePrefs);
            assert(self.effects.deep_view() =~= before.push(ChatEffectV::SavePrefs));
        }
        Some(dropped)
    }

    /// Is a round due?
    pub fn compaction_due(&self, now: u64) -> (r: bool)
        ensures
            r == self.deep_view().due(now),
    {
        let passed: u64 = if now >= self.compacted_at {
            now - self.compacted_at
        } else {
            0
        };
        self.stored && passed >= COMPACT_EVERY_SECS
    }

    /// Runs a round if one is due.
    pub fn maybe_compact(&mut self, now: u64, seen: &Vec<LastSeen>)
        ensures
            final(self).deep_view() == old(self).deep_view().beating(now, seen.deep_view()),
    {
        if !self.compaction_due(now) {
            return;
        }
        self.compacted_at = now;
        self.compact_now(now, false, seen);
    }

    /// Runs a round. `wait` says whether the host has to finish it before it
    /// goes on, as it must before the workspace is closed.
    pub fn compact_now(&mut self, now: u64, wait: bool, seen: &Vec<LastSeen>)
        ensures
            final(self).deep_view() == old(self).deep_view().compacting(
                now,
                wait,
                seen.deep_view(),
            ),
    {
        let ghost start = self.deep_view();
        let cutoff: u64 = self.compaction_cutoff(now);
        let dropped = self.compact_chat(cutoff);
        if dropped.is_none() || !self.stored {
            return;
        }
        let ghost after = self.deep_view();
        let holding = self.peers_holding_the_log(now, seen);
        proof {
            lemma_holding(start, after, now, seen.deep_view(), start.roster.len() as int);
        }
        let ghost before = self.effects.deep_view();
        let ask = ChatEffect::CompactLog { holding, wait };
        self.effects.push(ask);
        let ghost middle = self.effects.deep_view();
        assert(middle =~= before.push(ask.deep_view()));
        let tell = ChatEffect::Tell { notice: ChatNotice::Session };
        self.effects.push(tell);
        assert(self.effects.deep_view() =~= middle.push(tell.deep_view()));
    }
}

/// Who holds the log goes by the roster, the seat and the window alone.
proof fn lemma_holding(a: ChatV, b: ChatV, now: u64, seen: Seq<LastSeenV>, n: int)
    requires
        a.roster == b.roster,
        a.me == b.me,
        a.retention_days == b.retention_days,
    ensures
        a.holding(now, seen, n) == b.holding(now, seen, n),
    decreases n,
{
    if n > 0 {
        lemma_holding(a, b, now, seen, n - 1);
    }
}

} // verus!
