//! What holds of compaction as a whole.

use crate::chat;
use crate::chat_laws;
use crate::chat_model::{ChatEffectV, ChatNoticeV, ChatV, MessageV, PrunedV, ShareV};
use crate::compaction;
use crate::peers;
use crate::peers::LastSeenV;
use crate::post_laws;
use vstd::prelude::*;

verus! {

/// What goes for good left the view before: the final cutoff trails the view's
/// by a full window.
pub proof fn the_final_cutoff_trails_the_view(v: ChatV)
    ensures
        v.final_cutoff(v.now) <= v.cutoff(),
        v.retention_days > 0 && v.cutoff() > 0 ==> v.final_cutoff(v.now) < v.cutoff(),
{
    let w = v.retention_days * chat::DAY_SECS;
    assert(compaction::window_secs(v.retention_days, 2) == w * 2) by (nonlinear_arith)
        requires
            compaction::window_secs(v.retention_days, 2) == v.retention_days * chat::DAY_SECS * 2,
            w == v.retention_days * chat::DAY_SECS,
    ;
}

/// A message that is shown is not dropped.
pub proof fn nothing_shown_is_dropped(v: ChatV, i: int)
    requires
        0 <= i < v.messages.len(),
        !v.aged(v.messages[i].ts),
    ensures
        compaction::kept_since(v.messages, v.final_cutoff(v.now)).contains(v.messages[i]),
{
    the_final_cutoff_trails_the_view(v);
    let cutoff = v.final_cutoff(v.now);
    lemma_rank(v.messages, cutoff, i);
    let kept = compaction::kept_since(v.messages, cutoff);
    assert(kept[rank(v.messages, cutoff, i) as int] == v.messages[i]);
}

/// How many of the first `i` messages stay.
pub open spec fn rank(messages: Seq<MessageV>, cutoff: u64, i: int) -> nat {
    compaction::kept_since(messages.take(i), cutoff).len()
}

/// A message that stays is found where those before it that stay put it.
proof fn lemma_rank(messages: Seq<MessageV>, cutoff: u64, i: int)
    requires
        0 <= i < messages.len(),
        compaction::stays(messages[i].ts, cutoff),
    ensures
        rank(messages, cutoff, i) < compaction::kept_since(messages, cutoff).len(),
        compaction::kept_since(messages, cutoff)[rank(messages, cutoff, i) as int] == messages[i],
    decreases messages.len(),
{
    let front = messages.drop_last();
    if i == messages.len() - 1 {
        assert(messages.take(i) =~= front);
    } else {
        lemma_rank(front, cutoff, i);
        assert(front.take(i) =~= messages.take(i));
        assert(front[i] == messages[i]);
    }
}

/// The order of what stays is kept.
proof fn lemma_rank_order(messages: Seq<MessageV>, cutoff: u64, i: int, j: int)
    requires
        0 <= i <= j <= messages.len(),
    ensures
        rank(messages, cutoff, i) <= rank(messages, cutoff, j),
        i < j && compaction::stays(messages[i].ts, cutoff) ==> rank(messages, cutoff, i) < rank(
            messages,
            cutoff,
            j,
        ),
    decreases j - i,
{
    if i < j {
        let t = messages.take(j);
        assert(t.drop_last() =~= messages.take(j - 1));
        assert(t.last() == messages[j - 1]);
        lemma_rank_order(messages, cutoff, i, j - 1);
    }
}

/// Everything that is kept was there, and is to stay.
proof fn lemma_kept_from(messages: Seq<MessageV>, cutoff: u64, k: int) -> (i: int)
    requires
        0 <= k < compaction::kept_since(messages, cutoff).len(),
    ensures
        0 <= i < messages.len(),
        compaction::stays(messages[i].ts, cutoff),
        messages[i] == compaction::kept_since(messages, cutoff)[k],
        rank(messages, cutoff, i) == k,
    decreases messages.len(),
{
    let front = messages.drop_last();
    let rest = compaction::kept_since(front, cutoff);
    if k < rest.len() {
        let i = lemma_kept_from(front, cutoff, k);
        assert(front.take(i) =~= messages.take(i));
        i
    } else {
        assert(messages.take(messages.len() - 1) =~= front);
        messages.len() - 1
    }
}

/// Compaction keeps one place for each message.
pub proof fn compaction_keeps_one_place(v: ChatV, cutoff: u64)
    requires
        chat_laws::one_place(v.messages),
    ensures
        chat_laws::one_place(v.compacted(cutoff).messages),
{
    let kept = compaction::kept_since(v.messages, cutoff);
    assert forall|a: int, b: int| 0 <= a < b < kept.len() implies (#[trigger] kept[a]).id != (
    #[trigger] kept[b]).id by {
        let i = lemma_kept_from(v.messages, cutoff, a);
        let j = lemma_kept_from(v.messages, cutoff, b);
        if i > j {
            lemma_rank_order(v.messages, cutoff, j, i);
        }
        assert(i != j);
        assert(v.messages[i].id != v.messages[j].id);
    }
}

/// A second round with the same cutoff drops nothing and changes nothing.
pub proof fn a_second_round_changes_nothing(v: ChatV, cutoff: u64)
    ensures
        v.compacted(cutoff).compacted(cutoff) == v.compacted(cutoff),
{
    lemma_all_stay(compaction::kept_since(v.messages, cutoff), cutoff);
    let kept = compaction::kept_since(v.messages, cutoff);
    assert forall|k: int| 0 <= k < kept.len() implies compaction::stays(
        (#[trigger] kept[k]).ts,
        cutoff,
    ) by {
        let i = lemma_kept_from(v.messages, cutoff, k);
    }
    lemma_all_stay(kept, cutoff);
}

/// Where everything stays, nothing is dropped.
proof fn lemma_all_stay(messages: Seq<MessageV>, cutoff: u64)
    ensures
        (forall|k: int| 0 <= k < messages.len() ==> compaction::stays(
            (#[trigger] messages[k]).ts,
            cutoff,
        )) ==> compaction::kept_since(messages, cutoff) == messages,
    decreases messages.len(),
{
    if messages.len() > 0 && (forall|k: int|
        0 <= k < messages.len() ==> compaction::stays((#[trigger] messages[k]).ts, cutoff)) {
        let front = messages.drop_last();
        assert forall|k: int| 0 <= k < front.len() implies compaction::stays(
            (#[trigger] front[k]).ts,
            cutoff,
        ) by {
            assert(messages[k] == front[k]);
        }
        lemma_all_stay(front, cutoff);
        assert(compaction::stays(messages[messages.len() - 1].ts, cutoff));
        assert(messages =~= front.push(messages.last()));
    }
}

/// A share whose message was dropped is forgotten with it.
pub proof fn a_share_goes_with_its_message(v: ChatV, cutoff: u64, k: int)
    requires
        v.drops(cutoff) != 0,
        0 <= k < v.compacted(cutoff).share_paths.len(),
    ensures
        v.compacted(cutoff).message_at(v.compacted(cutoff).share_paths[k].id) is Some,
        v.share_paths.contains(v.compacted(cutoff).share_paths[k]),
{
    let kept = compaction::kept_since(v.messages, cutoff);
    lemma_live_shares(v.share_paths, kept, k);
}

/// The shares that are kept.
proof fn lemma_live_shares(shares: Seq<ShareV>, messages: Seq<MessageV>, k: int)
    requires
        0 <= k < compaction::live_shares(shares, messages).len(),
    ensures
        chat::place_of(messages, compaction::live_shares(shares, messages)[k].id) is Some,
        shares.contains(compaction::live_shares(shares, messages)[k]),
    decreases shares.len(),
{
    let front = shares.drop_last();
    let rest = compaction::live_shares(front, messages);
    if k < rest.len() {
        lemma_live_shares(front, messages, k);
        let j = choose|j: int| 0 <= j < front.len() && front[j] == rest[k];
        assert(shares[j] == rest[k]);
    } else {
        assert(shares[shares.len() - 1] == shares.last());
    }
}

/// What was read stays read: as long as the message that a channel was read to
/// is kept, a kept message is unread just where it was before the round.
pub proof fn what_was_read_stays_read(v: ChatV, cutoff: u64, i: int)
    requires
        chat_laws::one_place(v.messages),
        0 <= i < v.messages.len(),
        compaction::stays(v.messages[i].ts, cutoff),
        v.read_to(v.messages[i].channel) is Some,
        compaction::stays(
            v.messages[v.read_to(v.messages[i].channel)->0 as int].ts,
            cutoff,
        ),
    ensures
        v.compacted(cutoff).unread(v.messages[i]) == v.unread(v.messages[i]),
{
    let m = v.messages[i];
    let w = v.compacted(cutoff);
    let c = v.read_to(m.channel)->0 as int;
    let id = chat::id_of(chat::cursor_of(v.cursors, m.channel)->0)->0;
    chat::lemma_place(v.messages, id);
    assert(v.messages[c].id == id);
    if v.drops(cutoff) != 0 {
        compaction_keeps_one_place(v, cutoff);
        lemma_rank(v.messages, cutoff, i);
        lemma_rank(v.messages, cutoff, c);
        chat_laws::lemma_found_at(v.messages, i);
        chat_laws::lemma_found_at(w.messages, rank(v.messages, cutoff, i) as int);
        chat_laws::lemma_found_at(w.messages, rank(v.messages, cutoff, c) as int);
        if c < i {
            lemma_rank_order(v.messages, cutoff, c, i);
        } else {
            lemma_rank_order(v.messages, cutoff, i, c);
        }
    }
}

/// How many messages of a member a round drops.
pub open spec fn dropped_from(messages: Seq<MessageV>, cutoff: u64, member: Seq<char>) -> nat
    decreases messages.len(),
{
    if messages.len() == 0 {
        0
    } else {
        let rest = dropped_from(messages.drop_last(), cutoff, member);
        if !compaction::stays(messages.last().ts, cutoff) && messages.last().from == member {
            rest + 1
        } else {
            rest
        }
    }
}

/// Counting one message changes one member's count.
proof fn lemma_counts_with(counts: Seq<PrunedV>, by: Seq<char>, member: Seq<char>)
    ensures
        compaction::dropped_of(compaction::counts_with(counts, by), member) == if by == member
            && compaction::dropped_of(counts, member) < u64::MAX {
            (compaction::dropped_of(counts, member) + 1) as u64
        } else {
            compaction::dropped_of(counts, member)
        },
    decreases counts.len(),
{
    let out = compaction::counts_with(counts, by);
    if counts.len() == 0 {
        assert(out.skip(1) =~= counts);
    } else if counts[0].member == by {
        assert(out.skip(1) =~= counts.skip(1));
    } else {
        lemma_counts_with(counts.skip(1), by, member);
        assert(out[0] == counts[0]);
        assert(out.skip(1) =~= compaction::counts_with(counts.skip(1), by));
    }
}

/// What was dropped is on record: each member's count grows by as many
/// messages as went.
pub proof fn what_was_dropped_is_counted(v: ChatV, cutoff: u64, member: Seq<char>)
    requires
        compaction::dropped_of(v.pruned_counts, member) + dropped_from(
            v.messages,
            cutoff,
            member,
        ) <= u64::MAX,
    ensures
        v.drops(cutoff) != 0 ==> compaction::dropped_of(v.compacted(cutoff).pruned_counts, member)
            == compaction::dropped_of(v.pruned_counts, member) + dropped_from(
            v.messages,
            cutoff,
            member,
        ),
{
    lemma_counted(v.pruned_counts, v.messages, cutoff, member);
}

/// The counts after each message.
proof fn lemma_counted(
    counts: Seq<PrunedV>,
    messages: Seq<MessageV>,
    cutoff: u64,
    member: Seq<char>,
)
    requires
        compaction::dropped_of(counts, member) + dropped_from(messages, cutoff, member) <= u64::MAX,
    ensures
        compaction::dropped_of(compaction::counts_after(counts, messages, cutoff), member)
            == compaction::dropped_of(counts, member) + dropped_from(messages, cutoff, member),
    decreases messages.len(),
{
    if messages.len() > 0 {
        let front = messages.drop_last();
        lemma_counted(counts, front, cutoff, member);
        lemma_counts_with(
            compaction::counts_after(counts, front, cutoff),
            messages.last().from,
            member,
        );
    }
}

/// A round keeps the messages that are young enough and those whose age is not
/// known, in order, and the paths of the shares among them; nothing else.
pub proof fn a_round_drops_only_what_is_old(v: ChatV, cutoff: u64)
    ensures
        ({
            let w = v.compacted(cutoff);
            let kept = v.messages.filter(|m: MessageV| m.ts == 0 || m.ts >= cutoff);
            &&& w.messages == kept
            &&& v.drops(cutoff) == v.messages.len() - kept.len()
            &&& kept.len() < v.messages.len() ==> {
                &&& w.pruned
                &&& w.share_paths == v.share_paths.filter(
                    |s: ShareV|
                        exists|i: int| 0 <= i < kept.len() && (#[trigger] kept[i]).id == s.id,
                )
            }
            &&& kept.len() == v.messages.len() ==> w == v
            &&& w.cursors == v.cursors
            &&& w.downloads == v.downloads
        }),
{
    let pass = |m: MessageV| m.ts == 0 || m.ts >= cutoff;
    let kept = v.messages.filter(pass);
    lemma_kept(v.messages, cutoff);
    lemma_live(v.share_paths, kept);
    if kept.len() == v.messages.len() {
        lemma_filter_whole(v.messages, pass);
    }
}

/// What is kept is what is young enough.
proof fn lemma_kept(messages: Seq<MessageV>, cutoff: u64)
    ensures
        compaction::kept_since(messages, cutoff) == messages.filter(
            |m: MessageV| m.ts == 0 || m.ts >= cutoff,
        ),
    decreases messages.len(),
{
    reveal(Seq::filter);
    if messages.len() > 0 {
        lemma_kept(messages.drop_last(), cutoff);
    }
}

/// A filter that leaves as many leaves all.
proof fn lemma_filter_whole(messages: Seq<MessageV>, pass: spec_fn(MessageV) -> bool)
    requires
        messages.filter(pass).len() == messages.len(),
    ensures
        messages.filter(pass) == messages,
    decreases messages.len(),
{
    reveal(Seq::filter);
    if messages.len() > 0 {
        let front = messages.drop_last();
        front.lemma_filter_len(pass);
        lemma_filter_whole(front, pass);
        assert(messages =~= front.push(messages.last()));
    }
}

/// The shares that live are those with a message.
proof fn lemma_live(shares: Seq<ShareV>, messages: Seq<MessageV>)
    ensures
        compaction::live_shares(shares, messages) == shares.filter(
            |s: ShareV|
                exists|i: int| 0 <= i < messages.len() && (#[trigger] messages[i]).id == s.id,
        ),
    decreases shares.len(),
{
    reveal(Seq::filter);
    if shares.len() > 0 {
        lemma_live(shares.drop_last(), messages);
        post_laws::lemma_known(messages, shares.last().id);
    }
}

/// A message is shown for a retention window of days and is dropped after two;
/// a clock that has not counted as far shows and keeps everything.
pub proof fn a_window_is_counted_in_days(v: ChatV, now: u64)
    ensures
        v.cutoff() == (if v.now >= v.retention_days * 86400 {
            v.now - v.retention_days * 86400
        } else {
            0
        }),
        v.final_cutoff(now) == (if now >= 2 * (v.retention_days * 86400) {
            now - 2 * (v.retention_days * 86400)
        } else {
            0
        }),
{
    assert(compaction::window_secs(v.retention_days, 2) == 2 * (v.retention_days * 86400))
        by (nonlinear_arith)
        requires
            compaction::window_secs(v.retention_days, 2) == v.retention_days * 86400 * 2,
    ;
}

/// The members whose place in the log is waited for are the others of the
/// roster that were seen within two windows, in roster order; one that was
/// never seen counts from the beginning of time.
pub proof fn the_log_waits_for_who_was_seen_lately(v: ChatV, now: u64, seen: Seq<LastSeenV>)
    ensures
        v.holding(now, seen, v.roster.len() as int) == v.roster.filter(
            |m: Seq<char>| waited_for(v, now, seen, m),
        ),
{
    lemma_holding(v, now, seen, v.roster.len() as int);
    assert(v.roster.take(v.roster.len() as int) =~= v.roster);
}

/// Is that member's place in the log waited for?
pub open spec fn waited_for(v: ChatV, now: u64, seen: Seq<LastSeenV>, m: Seq<char>) -> bool {
    let at = match peers::seen_at(seen, m) {
        Some(at) => at as int,
        None => 0,
    };
    m != v.me && now - at <= 2 * (v.retention_days * 86400)
}

/// Those waited for among the first seats.
proof fn lemma_holding(v: ChatV, now: u64, seen: Seq<LastSeenV>, n: int)
    requires
        0 <= n <= v.roster.len(),
    ensures
        v.holding(now, seen, n) == v.roster.take(n).filter(
            |m: Seq<char>| waited_for(v, now, seen, m),
        ),
    decreases n,
{
    reveal(Seq::filter);
    let low = v.roster.take(n);
    if n > 0 {
        lemma_holding(v, now, seen, n - 1);
        assert(low.drop_last() =~= v.roster.take(n - 1));
        assert(low.last() == v.roster[n - 1]);
        assert(compaction::window_secs(v.retention_days, 2) == 2 * (v.retention_days * 86400))
            by (nonlinear_arith)
            requires
                compaction::window_secs(v.retention_days, 2) == v.retention_days * 86400 * 2,
        ;
        assert(2 * (v.retention_days * 86400) >= 0);
    }
}

/// A round is run once a day on a stored chat, and what it does is dropping
/// what is old by then; the host is told to compact its log, and whom to wait
/// for, exactly where something was dropped.
pub proof fn a_round_is_run_once_a_day(v: ChatV, now: u64, seen: Seq<LastSeenV>)
    ensures
        ({
            let due = v.stored && now >= v.compacted_at + 86400;
            let w = v.beating(now, seen);
            let cutoff = v.final_cutoff(now);
            &&& !due ==> w == v
            &&& due ==> {
                &&& w.compacted_at == now
                &&& w.messages == v.messages.filter(|m: MessageV| m.ts == 0 || m.ts >= cutoff)
                &&& w.messages.len() == v.messages.len() ==> w.effects == v.effects
                &&& w.messages.len() < v.messages.len() ==> w.effects.len() >= 2
                    && w.effects[w.effects.len() - 2] == (ChatEffectV::CompactLog {
                    holding: v.roster.filter(|m: Seq<char>| waited_for(v, now, seen, m)),
                    wait: false,
                }) && w.effects.last() == (ChatEffectV::Tell { notice: ChatNoticeV::Session })
            }
        }),
{
    let begun = ChatV { compacted_at: now, ..v };
    a_round_drops_only_what_is_old(begun, v.final_cutoff(now));
    the_log_waits_for_who_was_seen_lately(v, now, seen);
    the_log_waits_for_who_was_seen_lately(begun, now, seen);
    lemma_same_waits(v, begun, now, seen, v.roster);
    v.messages.lemma_filter_len(|m: MessageV| m.ts == 0 || m.ts >= v.final_cutoff(now));
}

/// When the last round was does not matter to whom is waited for.
proof fn lemma_same_waits(
    v: ChatV,
    w: ChatV,
    now: u64,
    seen: Seq<LastSeenV>,
    list: Seq<Seq<char>>,
)
    requires
        w == (ChatV { compacted_at: w.compacted_at, ..v }),
    ensures
        list.filter(|m: Seq<char>| waited_for(v, now, seen, m)) == list.filter(
            |m: Seq<char>| waited_for(w, now, seen, m),
        ),
    decreases list.len(),
{
    reveal(Seq::filter);
    if list.len() > 0 {
        lemma_same_waits(v, w, now, seen, list.drop_last());
    }
}

/// A round on a stored chat that drops something hands the log to the host
/// with the members that are waited for, and says whether it waits as it was
/// told to.
pub proof fn a_round_waits_as_it_is_told(v: ChatV, now: u64, wait: bool, seen: Seq<LastSeenV>)
    ensures
        ({
            let w = v.compacting(now, wait, seen);
            let cutoff = v.final_cutoff(now);
            &&& w.messages == v.messages.filter(|m: MessageV| m.ts == 0 || m.ts >= cutoff)
            &&& w.messages.len() == v.messages.len() ==> w == v
            &&& v.stored && w.messages.len() < v.messages.len() ==> w.effects.len() >= 2
                && w.effects[w.effects.len() - 2] == (ChatEffectV::CompactLog {
                holding: v.roster.filter(|m: Seq<char>| waited_for(v, now, seen, m)),
                wait,
            }) && w.effects.last() == (ChatEffectV::Tell { notice: ChatNoticeV::Session })
        }),
{
    a_round_drops_only_what_is_old(v, v.final_cutoff(now));
    the_log_waits_for_who_was_seen_lately(v, now, seen);
    v.messages.lemma_filter_len(|m: MessageV| m.ts == 0 || m.ts >= v.final_cutoff(now));
}

} // verus!
