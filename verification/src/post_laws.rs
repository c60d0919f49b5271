//! What holds of a message that is posted, shared, downloaded or taken back.

use crate::chat;
use crate::chat_model::{
    ChannelRef, ChatEffectV, ChatErrorV, ChatEventV, ChatKind, ChatNoticeV, ChatV, DownloadV,
    FileMetaV, MessageV, PhaseV, ReactOp, ShareV, TargetV,
};
use crate::chat_laws;
use crate::list_laws;
use crate::state::{ProposalState, StateV};
use crate::table;
use crate::text;
use vstd::prelude::*;

verus! {

/// Is the message of that id the `i`-th, and no earlier one?
pub open spec fn stands_at(messages: Seq<MessageV>, id: Seq<u8>, i: int) -> bool {
    &&& 0 <= i < messages.len()
    &&& messages[i].id == id
    &&& forall|j: int| 0 <= j < i ==> (#[trigger] messages[j]).id != id
}

/// Is no message of that id there?
pub open spec fn nowhere(messages: Seq<MessageV>, id: Seq<u8>) -> bool {
    forall|j: int| 0 <= j < messages.len() ==> (#[trigger] messages[j]).id != id
}

/// Where a message stands is its place.
pub proof fn lemma_stands(messages: Seq<MessageV>, id: Seq<u8>, i: int)
    requires
        stands_at(messages, id, i),
    ensures
        chat::place_of(messages, id) == Some(i as nat),
    decreases messages.len(),
{
    if i > 0 {
        assert(messages[0].id != id);
        let rest = messages.skip(1);
        assert(rest[i - 1] == messages[i]);
        assert forall|j: int| 0 <= j < i - 1 implies (#[trigger] rest[j]).id != id by {
            assert(rest[j] == messages[j + 1]);
        }
        lemma_stands(rest, id, i - 1);
    }
}

/// A message that is nowhere has no place.
proof fn lemma_nowhere(messages: Seq<MessageV>, id: Seq<u8>)
    requires
        nowhere(messages, id),
    ensures
        chat::place_of(messages, id) is None,
{
    chat::lemma_place(messages, id);
    if chat::place_of(messages, id) is Some {
        assert(messages[chat::place_of(messages, id)->0 as int].id == id);
    }
}

/// A message is known where one of that id is there.
pub proof fn lemma_known(messages: Seq<MessageV>, id: Seq<u8>)
    ensures
        chat::place_of(messages, id) is Some <==> !nowhere(messages, id),
    decreases messages.len(),
{
    chat::lemma_place(messages, id);
    if nowhere(messages, id) {
        lemma_nowhere(messages, id);
    } else if messages[0].id != id {
        let rest = messages.skip(1);
        let j = choose|j: int| 0 <= j < messages.len() && (#[trigger] messages[j]).id == id;
        assert(rest[j - 1] == messages[j]);
        lemma_known(rest, id);
    }
}

/// A post is the newest message, and carries exactly the id, the sender, the
/// words, the channel and the kind that were asked for, at the present time.
/// What is recorded is that message, and what is told names the same. Nothing
/// else changes.
pub proof fn a_post_is_what_was_asked_for(
    v: ChatV,
    id: Seq<u8>,
    from: Seq<char>,
    body: Seq<char>,
    quote: Option<Seq<u8>>,
    channel: ChannelRef,
    kind: ChatKind,
)
    requires
        nowhere(v.messages, id),
    ensures
        ({
            let w = v.posting(id, from, body, quote, channel, kind);
            let m = w.messages.last();
            &&& w.messages.len() == v.messages.len() + 1
            &&& w.messages.drop_last() == v.messages
            &&& m.id == id
            &&& m.from == from
            &&& m.body == body
            &&& m.channel == channel
            &&& m.kind == kind
            &&& m.ts == v.now
            &&& m.file is None
            &&& m.deleted_by is None
            &&& m.reactions.len() == 0
            &&& m.read_by.len() == 0
            &&& w.effects == v.effects.push(
                ChatEffectV::Record { event: ChatEventV::Chat { msg: m } },
            ).push(
                ChatEffectV::Tell { notice: ChatNoticeV::Chat { id, from, body, channel } },
            )
            &&& w == ChatV { messages: w.messages, effects: w.effects, ..v }
        }),
{
    lemma_nowhere(v.messages, id);
    let w = v.posting(id, from, body, quote, channel, kind);
    assert(w.messages.drop_last() =~= v.messages);
}

/// A quote sticks where it points at a message that is there, and only there.
pub proof fn a_quote_sticks_to_what_is_known(
    v: ChatV,
    id: Seq<u8>,
    from: Seq<char>,
    body: Seq<char>,
    quote: Seq<u8>,
    channel: ChannelRef,
    kind: ChatKind,
)
    requires
        nowhere(v.messages, id),
    ensures
        !nowhere(v.messages, quote) ==> v.posting(
            id,
            from,
            body,
            Some(quote),
            channel,
            kind,
        ).messages.last().quote_id == Some(quote),
        nowhere(v.messages, quote) ==> v.posting(
            id,
            from,
            body,
            Some(quote),
            channel,
            kind,
        ).messages.last().quote_id is None,
        v.posting(id, from, body, None, channel, kind).messages.last().quote_id is None,
{
    lemma_nowhere(v.messages, id);
    lemma_known(v.messages, quote);
}

/// The share paths without one are the others, in order.
proof fn lemma_paths_without(shares: Seq<ShareV>, id: Seq<u8>)
    ensures
        chat::paths_without(shares, id) == shares.filter(|s: ShareV| s.id != id),
    decreases shares.len(),
{
    reveal(Seq::filter);
    if shares.len() > 0 {
        lemma_paths_without(shares.drop_last(), id);
    }
}

/// A share is the newest message: it is this seat's, carries no words, stands
/// in the channel that was named and offers the file under its own name, size
/// and checksum. The path that it is served from is the one given, and no
/// other share's path changes.
pub proof fn a_share_is_what_was_given(
    v: ChatV,
    id: Seq<u8>,
    file: FileMetaV,
    path: Seq<char>,
    channel: ChannelRef,
)
    requires
        nowhere(v.messages, id),
    ensures
        ({
            let w = v.sharing(id, file, path, channel);
            let m = w.messages.last();
            &&& w.messages.len() == v.messages.len() + 1
            &&& w.messages.drop_last() == v.messages
            &&& m.id == id
            &&& m.from == v.me
            &&& m.body.len() == 0
            &&& m.channel == channel
            &&& m.kind == ChatKind::User
            &&& m.ts == v.now
            &&& m.quote_id is None
            &&& m.deleted_by is None
            &&& m.file is Some
            &&& m.file->0.name == file.name
            &&& m.file->0.size == file.size
            &&& m.file->0.kind == file.kind
            &&& m.file->0.checksum == file.checksum
            &&& m.file->0.available
            &&& m.file->0.modified == (if file.modified == 0 {
                v.now
            } else {
                file.modified
            })
            &&& w.share_paths == v.share_paths.filter(|s: ShareV| s.id != id).push(
                ShareV { id, path },
            )
            &&& w.effects == v.effects.push(
                ChatEffectV::Record { event: ChatEventV::Chat { msg: m } },
            ).push(ChatEffectV::SavePrefs).push(
                ChatEffectV::Tell {
                    notice: ChatNoticeV::Chat { id, from: v.me, body: "📎 "@ + file.name, channel },
                },
            )
            &&& w == ChatV {
                messages: w.messages,
                share_paths: w.share_paths,
                effects: w.effects,
                ..v
            }
        }),
{
    lemma_nowhere(v.messages, id);
    lemma_paths_without(v.share_paths, id);
    let w = v.sharing(id, file, path, channel);
    assert(w.messages.drop_last() =~= v.messages);
}

/// A share is refused for the first reason that holds: the discussion is
/// closed, no path is given, the path names no file, sharing is off, or the
/// file is too large for the relays. Otherwise it is taken.
pub proof fn a_share_is_refused_only_for_a_reason(
    v: ChatV,
    closed: Option<ChatErrorV>,
    path: Seq<char>,
    has_name: bool,
    size: Option<u64>,
)
    ensures
        v.share_refusal(closed, path, has_name, size) is None <==> {
            &&& closed is None
            &&& exists|i: int| 0 <= i < path.len() && !text::is_space(#[trigger] path[i])
            &&& has_name
            &&& v.file_cap > 0
            &&& (v.on_relays && size is Some ==> size->0 <= v.file_cap)
        },
        closed is Some ==> v.share_refusal(closed, path, has_name, size) == closed,
        closed is None && v.share_refusal(closed, path, has_name, size) is Some ==> match v.share_refusal(
            closed,
            path,
            has_name,
            size,
        )->0 {
            ChatErrorV::EmptyPath => forall|i: int|
                0 <= i < path.len() ==> text::is_space(#[trigger] path[i]),
            ChatErrorV::NoFileName { .. } => !has_name,
            ChatErrorV::SharingOff => v.file_cap == 0,
            ChatErrorV::OverCap { size: s, cap } => size == Some(s) && cap == v.file_cap && s > cap,
            _ => false,
        },
{
    lemma_trimmed(path);
    let e = chat::trimmed(path);
    let (a, b) = choose|a: Seq<char>, b: Seq<char>| #[trigger] around(path, e, a, b);
    if e.len() > 0 {
        assert(path[a.len() as int] == e[0]);
    }
    if exists|i: int| 0 <= i < path.len() && !text::is_space(#[trigger] path[i]) {
        let i = choose|i: int| 0 <= i < path.len() && !text::is_space(#[trigger] path[i]);
        if e.len() == 0 {
            if i < a.len() {
                assert(path[i] == a[i]);
            } else {
                assert(path[i] == b[i - a.len()]);
            }
        }
    }
}

/// Does the text consist of `e` with white space before and behind it?
pub open spec fn around(t: Seq<char>, e: Seq<char>, a: Seq<char>, b: Seq<char>) -> bool {
    &&& t == a + e + b
    &&& forall|i: int| 0 <= i < a.len() ==> text::is_space(#[trigger] a[i])
    &&& forall|i: int| 0 <= i < b.len() ==> text::is_space(#[trigger] b[i])
}

/// Trimming takes white space off the ends, and nothing else.
proof fn lemma_trimmed(t: Seq<char>)
    ensures
        exists|a: Seq<char>, b: Seq<char>| #[trigger] around(t, chat::trimmed(t), a, b),
        chat::trimmed(t).len() > 0 ==> !text::is_space(chat::trimmed(t)[0]) && !text::is_space(
            chat::trimmed(t).last(),
        ),
    decreases t.len(),
{
    let e = chat::trimmed(t);
    if t.len() == 0 {
        assert(around(t, e, Seq::empty(), Seq::empty()));
    } else if text::is_space(t[0]) {
        lemma_trimmed(t.skip(1));
        let (a, b) = choose|a: Seq<char>, b: Seq<char>| #[trigger] around(t.skip(1), e, a, b);
        assert(t =~= seq![t[0]] + t.skip(1));
        assert(t =~= (seq![t[0]] + a) + e + b);
        assert(around(t, e, seq![t[0]] + a, b));
    } else if text::is_space(t.last()) {
        lemma_trimmed(t.drop_last());
        let (a, b) = choose|a: Seq<char>, b: Seq<char>| #[trigger] around(t.drop_last(), e, a, b);
        assert(t =~= t.drop_last().push(t.last()));
        assert(t =~= a + e + b.push(t.last()));
        assert(around(t, e, a, b.push(t.last())));
    } else {
        assert(t =~= Seq::<char>::empty() + t + Seq::<char>::empty());
        assert(around(t, e, Seq::empty(), Seq::empty()));
    }
}

/// A reaction is what stands between the white space around it, and it has one
/// to four characters; a text that holds more, or nothing, is none.
pub proof fn a_reaction_is_a_short_text(t: Seq<char>, a: Seq<char>, e: Seq<char>, b: Seq<char>)
    requires
        around(t, e, a, b),
        e.len() > 0,
        !text::is_space(e[0]),
        !text::is_space(e.last()),
    ensures
        e.len() <= 4 ==> chat::emoji_of(t) == Some(e),
        e.len() > 4 ==> chat::emoji_of(t) is None,
    decreases t.len(),
{
    if a.len() > 0 {
        assert(t[0] == a[0]);
        let rest = t.skip(1);
        assert(rest =~= a.skip(1) + e + b);
        assert(around(rest, e, a.skip(1), b));
        a_reaction_is_a_short_text(rest, a.skip(1), e, b);
    } else if b.len() > 0 {
        assert(t[0] == e[0]);
        assert(t.last() == b.last());
        let rest = t.drop_last();
        assert(rest =~= a + e + b.drop_last());
        assert(around(rest, e, a, b.drop_last()));
        a_reaction_is_a_short_text(rest, a, e, b.drop_last());
    } else {
        assert(t =~= e);
    }
}

/// White space alone is no reaction.
pub proof fn white_space_is_no_reaction(t: Seq<char>)
    requires
        forall|i: int| 0 <= i < t.len() ==> text::is_space(#[trigger] t[i]),
    ensures
        chat::emoji_of(t) is None,
    decreases t.len(),
{
    if t.len() > 0 {
        assert(text::is_space(t[0]));
        assert forall|i: int| 0 <= i < t.skip(1).len() implies text::is_space(
            #[trigger] t.skip(1)[i],
        ) by {
            assert(t.skip(1)[i] == t[i + 1]);
        }
        white_space_is_no_reaction(t.skip(1));
    }
}

/// A reaction is a voice of its author alone: every other member's voices stay
/// as they are, and no other message changes. Where the author was not under
/// the emoji it is now, and under no other; where it was, it no longer is.
pub proof fn a_reaction_moves_one_voice(
    v: ChatV,
    id: Seq<u8>,
    i: int,
    by: Seq<char>,
    emoji: Seq<char>,
    op: Option<ReactOp>,
    index: u64,
    other: Seq<char>,
    e: Seq<char>,
)
    requires
        stands_at(v.messages, id, i),
        v.messages[i].deleted_by is None,
    ensures
        ({
            let before = v.messages[i];
            let w = v.applied(ChatEventV::Reacted { index, id, emoji, by, op });
            let now = w.messages[i];
            let adds = op == Some(ReactOp::Add) || (op is None && !chat::has_voice(
                before.reactions,
                by,
                emoji,
            ));
            &&& w.messages == v.messages.update(i, now)
            &&& now == MessageV { reactions: now.reactions, ..before }
            &&& (other != by ==> chat::has_voice(now.reactions, other, e) == chat::has_voice(
                before.reactions,
                other,
                e,
            ))
            &&& (adds ==> (chat::has_voice(now.reactions, by, e) <==> e == emoji))
            &&& (!adds ==> !chat::has_voice(now.reactions, by, emoji))
            &&& (!adds && e != emoji ==> chat::has_voice(now.reactions, by, e) == chat::has_voice(
                before.reactions,
                by,
                e,
            ))
            &&& w == ChatV { messages: w.messages, ..v }
        }),
{
    lemma_stands(v.messages, id, i);
    chat_laws::lemma_reacted_voices(v.messages[i], by, emoji, op, other, e);
    chat_laws::lemma_reacted_voices(v.messages[i], by, emoji, op, by, e);
    chat_laws::lemma_reacted_voices(v.messages[i], by, emoji, op, by, emoji);
}

/// What a seat's own reaction records is the emoji without the white space
/// around it, under this seat's name: it is set where the seat was not under
/// it, and taken back where it was. It is told under the same name.
pub proof fn an_own_reaction_says_what_it_does(v: ChatV, id: Seq<u8>, i: int, t: Seq<char>)
    requires
        stands_at(v.messages, id, i),
        v.react_refusal(id, t) is None,
        i <= u64::MAX,
    ensures
        ({
            let w = v.reacting(id, t);
            let e = chat::emoji_of(t)->0;
            let n = v.effects.len() as int;
            let op = if exists|k: int|
                0 <= k < v.messages[i].reactions.len() && (
                #[trigger] v.messages[i].reactions[k]).emoji == e
                    && v.messages[i].reactions[k].who.contains(v.me) {
                ReactOp::Remove
            } else {
                ReactOp::Add
            };
            &&& v.messages[i].deleted_by is None
            &&& w.effects.len() == n + 2
            &&& w.effects[n] == (ChatEffectV::Record {
                event: ChatEventV::Reacted {
                    index: i as u64,
                    id,
                    emoji: e,
                    by: v.me,
                    op: Some(op),
                },
            })
            &&& w.effects[n + 1] == (ChatEffectV::Tell {
                notice: ChatNoticeV::Reacted { id, emoji: e, by: v.me },
            })
        }),
{
    lemma_stands(v.messages, id, i);
}

/// A reaction is refused where the text is none, where the message is not
/// there, and where it was deleted; nowhere else.
pub proof fn a_reaction_is_refused_only_for_a_reason(v: ChatV, id: Seq<u8>, i: int, t: Seq<char>)
    requires
        stands_at(v.messages, id, i),
    ensures
        v.react_refusal(id, t) is None <==> chat::emoji_of(t) is Some
            && v.messages[i].deleted_by is None,
{
    lemma_stands(v.messages, id, i);
}

/// A deleted message keeps its id, its author, its time and its place; its
/// words, its quote, its file, its reactions and its receipts are gone, and it
/// says who deleted it. No other message changes. Where the one who deletes is
/// not the author, nothing does.
pub proof fn a_deletion_leaves_only_the_notice(
    v: ChatV,
    id: Seq<u8>,
    i: int,
    by: Seq<char>,
    index: u64,
)
    requires
        stands_at(v.messages, id, i),
    ensures
        ({
            let w = v.applied(ChatEventV::Deleted { index, id, by });
            let before = v.messages[i];
            let now = w.messages[i];
            &&& w.messages == v.messages.update(i, now)
            &&& w == ChatV { messages: w.messages, ..v }
            &&& (before.from != by ==> now == before)
            &&& (before.from == by ==> {
                &&& now.id == id
                &&& now.from == before.from
                &&& now.ts == before.ts
                &&& now.channel == before.channel
                &&& now.kind == before.kind
                &&& now.body.len() == 0
                &&& now.quote_id is None
                &&& now.file is None
                &&& now.deleted_by == Some(by)
                &&& now.reactions.len() == 0
                &&& now.read_by.len() == 0
            })
        }),
{
    lemma_stands(v.messages, id, i);
    let w = v.applied(ChatEventV::Deleted { index, id, by });
    assert(w.messages =~= v.messages.update(i, w.messages[i]));
}

/// A seat deletes its own messages and no others. What it records names the
/// message by its place and its id, and this seat; the path of a share goes
/// with its message, and every other path stays.
pub proof fn an_own_deletion_says_what_it_does(v: ChatV, id: Seq<u8>, i: int)
    requires
        stands_at(v.messages, id, i),
        i <= u64::MAX,
    ensures
        v.delete_refusal(id) is None <==> v.messages[i].from == v.me,
        ({
            let w = v.deleting(id);
            let n = v.effects.len() as int;
            &&& w.effects.len() > n
            &&& w.effects[n] == (ChatEffectV::Record {
                event: ChatEventV::Deleted { index: i as u64, id, by: v.me },
            })
            &&& w.effects.last() == (ChatEffectV::Tell {
                notice: ChatNoticeV::Deleted { id, by: v.me },
            })
            &&& w.messages == v.applied(
                ChatEventV::Deleted { index: i as u64, id, by: v.me },
            ).messages
            &&& w.share_paths == v.share_paths.filter(|s: ShareV| s.id != id)
            &&& w.effects.len() == n + (if exists|k: int|
                0 <= k < v.share_paths.len() && (#[trigger] v.share_paths[k]).id == id {
                3int
            } else {
                2int
            })
            &&& w.effects.len() == n + 3 ==> w.effects[n + 1] == ChatEffectV::SavePrefs
        }),
{
    lemma_stands(v.messages, id, i);
    lemma_path_gone(v.share_paths, id);
}

/// Where no path is known for a share, leaving its path out changes nothing.
proof fn lemma_path_gone(shares: Seq<ShareV>, id: Seq<u8>)
    ensures
        chat::path_of(shares, id) is None ==> shares.filter(|s: ShareV| s.id != id) == shares,
        chat::paths_without(shares, id) == shares.filter(|s: ShareV| s.id != id),
        chat::path_of(shares, id) is Some <==> exists|k: int|
            0 <= k < shares.len() && (#[trigger] shares[k]).id == id,
{
    lemma_paths_without(shares, id);
    lemma_path_known(shares, id);
    if chat::path_of(shares, id) is None {
        list_laws::lemma_all_pass(shares, |s: ShareV| s.id != id);
    }
}

/// A path is known where there is a share of that id.
proof fn lemma_path_known(shares: Seq<ShareV>, id: Seq<u8>)
    ensures
        chat::path_of(shares, id) is Some <==> exists|k: int|
            0 <= k < shares.len() && (#[trigger] shares[k]).id == id,
    decreases shares.len(),
{
    if shares.len() > 0 {
        let rest = shares.skip(1);
        lemma_path_known(rest, id);
        if shares[0].id != id {
            if chat::path_of(rest, id) is Some {
                let k = choose|k: int| 0 <= k < rest.len() && (#[trigger] rest[k]).id == id;
                assert(shares[k + 1].id == id);
            }
            if exists|k: int| 0 <= k < shares.len() && (#[trigger] shares[k]).id == id {
                let k = choose|k: int| 0 <= k < shares.len() && (#[trigger] shares[k]).id == id;
                assert(rest[k - 1].id == id);
            }
        } else {
            assert(shares[0].id == id);
        }
    }
}

/// A file that was removed is on offer no more, and is otherwise as it was;
/// only its author removes it. No other message changes.
pub proof fn a_removed_file_is_on_offer_no_more(
    v: ChatV,
    id: Seq<u8>,
    i: int,
    by: Seq<char>,
    index: u64,
)
    requires
        stands_at(v.messages, id, i),
    ensures
        ({
            let w = v.applied(ChatEventV::FileRemoved { index, id, by });
            let before = v.messages[i];
            let now = w.messages[i];
            &&& w.messages == v.messages.update(i, now)
            &&& w == ChatV { messages: w.messages, ..v }
            &&& now == MessageV { file: now.file, ..before }
            &&& (before.from != by ==> now.file == before.file)
            &&& (before.file is None ==> now.file is None)
            &&& (before.file is Some && before.from == by ==> {
                &&& now.file is Some
                &&& !now.file->0.available
                &&& now.file->0.name == before.file->0.name
                &&& now.file->0.size == before.file->0.size
                &&& now.file->0.checksum == before.file->0.checksum
            })
        }),
{
    lemma_stands(v.messages, id, i);
    let w = v.applied(ChatEventV::FileRemoved { index, id, by });
    assert(w.messages =~= v.messages.update(i, w.messages[i]));
}

/// A seat removes a file that it shares itself and that is on offer, and no
/// other. What it records names the message and this seat, and the path goes.
pub proof fn an_own_removal_says_what_it_does(v: ChatV, id: Seq<u8>, i: int)
    requires
        stands_at(v.messages, id, i),
        i <= u64::MAX,
    ensures
        v.remove_refusal(id) is None <==> v.messages[i].file is Some && v.messages[i].from == v.me
            && v.messages[i].file->0.available,
        ({
            let w = v.removing(id);
            let n = v.effects.len() as int;
            &&& w.effects.len() > n
            &&& w.effects[n] == (ChatEffectV::Record {
                event: ChatEventV::FileRemoved { index: i as u64, id, by: v.me },
            })
            &&& w.effects.last() == (ChatEffectV::Tell {
                notice: ChatNoticeV::FileRemoved { id, by: v.me },
            })
            &&& w.share_paths == v.share_paths.filter(|s: ShareV| s.id != id)
        }),
{
    lemma_stands(v.messages, id, i);
    lemma_path_gone(v.share_paths, id);
}

/// The downloads without one are the others, in order.
proof fn lemma_downloads_without(downloads: Seq<DownloadV>, id: Seq<u8>)
    ensures
        chat::downloads_without(downloads, id) == downloads.filter(|d: DownloadV| d.id != id),
    decreases downloads.len(),
{
    reveal(Seq::filter);
    if downloads.len() > 0 {
        lemma_downloads_without(downloads.drop_last(), id);
    }
}

/// A download shows where it stands: one entry under its id, with the phase
/// that was noted, and every other download as it was. The phase is told.
pub proof fn a_download_shows_its_phase(v: ChatV, id: Seq<u8>, phase: PhaseV)
    ensures
        ({
            let w = v.phase_set(id, phase);
            let d = w.downloads.last();
            &&& w.downloads == v.downloads.filter(|d: DownloadV| d.id != id).push(d)
            &&& d.id == id
            &&& match phase {
                PhaseV::Requested => d.phase == "requested"@ && d.percent == 0 && d.path.len() == 0
                    && d.error.len() == 0,
                PhaseV::Progress { percent } => d.phase == "transferring"@ && d.percent == percent
                    && d.path.len() == 0 && d.error.len() == 0,
                PhaseV::Done { path } => d.phase == "done"@ && d.percent == 100 && d.path == path
                    && d.error.len() == 0,
                PhaseV::Failed { reason } => d.phase == "failed"@ && d.percent == 0 && d.path.len()
                    == 0 && d.error == reason,
            }
            &&& w.effects == v.effects.push(
                ChatEffectV::Tell { notice: ChatNoticeV::FileTransfer { id, phase } },
            )
            &&& w == ChatV { downloads: w.downloads, effects: w.effects, ..v }
        }),
{
    lemma_downloads_without(v.downloads, id);
}

/// A download is begun for a file that is on offer and still shown and that is
/// not underway already: one of the seat's own where its path is known, and
/// one of another member's where the relays or the member can be reached.
pub proof fn a_download_is_refused_only_for_a_reason(
    v: ChatV,
    id: Seq<u8>,
    i: int,
    mesh_ready: bool,
)
    requires
        stands_at(v.messages, id, i),
    ensures
        v.download_refusal(id, mesh_ready) is None <==> {
            let m = v.messages[i];
            &&& m.file is Some
            &&& m.file->0.available
            &&& !(m.ts != 0 && m.ts < v.cutoff())
            &&& !chat::running(v.downloads, id)
            &&& (m.from == v.me ==> exists|k: int|
                0 <= k < v.share_paths.len() && (#[trigger] v.share_paths[k]).id == id)
            &&& (m.from != v.me ==> v.on_relays || mesh_ready)
        },
{
    lemma_stands(v.messages, id, i);
    lemma_path_known(v.share_paths, id);
}

/// A download is of the file that the message offers, to where it was asked
/// for: a copy of the seat's own file from the path it is shared from, a fetch
/// over the relays, or a fetch from the member. It shows as requested.
pub proof fn a_download_is_of_what_is_offered(
    v: ChatV,
    id: Seq<u8>,
    i: int,
    dest: Option<Seq<char>>,
)
    requires
        stands_at(v.messages, id, i),
        v.messages[i].file is Some,
    ensures
        ({
            let w = v.downloading(id, dest);
            let m = v.messages[i];
            let f = m.file->0;
            let n = v.effects.len() as int;
            let target = TargetV { id, name: f.name, size: f.size, checksum: f.checksum };
            &&& w.effects.len() == n + 2
            &&& (m.from != v.me && v.on_relays ==> w.effects[n] == (ChatEffectV::RelayFetch {
                target,
                dest,
            }))
            &&& (m.from != v.me && !v.on_relays ==> w.effects[n] == (ChatEffectV::PeerFetch {
                target,
                dest,
            }))
            &&& (m.from == v.me ==> forall|k: int|
                0 <= k < v.share_paths.len() && (#[trigger] v.share_paths[k]).id == id && (forall|
                    j: int,
                |
                    0 <= j < k ==> (#[trigger] v.share_paths[j]).id != id) ==> w.effects[n] == (
                ChatEffectV::LocalCopy { source: v.share_paths[k].path, target, dest }))
            &&& w.effects[n + 1] == (ChatEffectV::Tell {
                notice: ChatNoticeV::FileTransfer { id, phase: PhaseV::Requested },
            })
            &&& w.downloads.last().id == id
            &&& w.downloads.last().phase == "requested"@
            &&& w.messages == v.messages
        }),
{
    lemma_stands(v.messages, id, i);
    assert forall|k: int|
        0 <= k < v.share_paths.len() && (#[trigger] v.share_paths[k]).id == id && (forall|j: int|
            0 <= j < k ==> (#[trigger] v.share_paths[j]).id != id) implies chat::path_of(
        v.share_paths,
        id,
    ) == Some(v.share_paths[k].path) by {
        lemma_path_at(v.share_paths, id, k);
    }
}

/// The path of a share is the one noted with its id.
proof fn lemma_path_at(shares: Seq<ShareV>, id: Seq<u8>, k: int)
    requires
        0 <= k < shares.len(),
        shares[k].id == id,
        forall|j: int| 0 <= j < k ==> (#[trigger] shares[j]).id != id,
    ensures
        chat::path_of(shares, id) == Some(shares[k].path),
    decreases shares.len(),
{
    if k > 0 {
        assert(shares[0].id != id);
        let rest = shares.skip(1);
        assert(rest[k - 1] == shares[k]);
        assert forall|j: int| 0 <= j < k - 1 implies (#[trigger] rest[j]).id != id by {
            assert(rest[j] == shares[j + 1]);
        }
        lemma_path_at(rest, id, k - 1);
    }
}

/// A discussion is closed exactly where it is about a vote that is known here
/// and was decided; the group is never closed.
pub proof fn a_discussion_closes_with_its_vote(s: StateV, channel: ChannelRef)
    ensures
        channel == ChannelRef::Group ==> s.closed(channel) is None,
        forall|id: u64|
            channel == (ChannelRef::Patch { id }) ==> match #[trigger] table::get(s.proposals, id) {
                Some(p) => if p.state == ProposalState::Proposed {
                    s.closed(channel) is None
                } else {
                    s.closed(channel) == Some(
                        ChatErrorV::DiscussionClosed { patch: id, state: p.state },
                    )
                },
                None => s.closed(channel) is None,
            },
{
}

/// A share that failed is said to have failed, under the file's name and with
/// the reason, and the frontends are told; nothing is posted.
pub proof fn a_failed_share_is_said_to_have_failed(v: ChatV, name: Seq<char>, reason: Seq<char>)
    ensures
        ({
            let w = v.share_failed(name, reason);
            &&& w.notice == "share-failed:"@ + name + ":"@ + reason
            &&& w.effects == v.effects.push(ChatEffectV::Tell { notice: ChatNoticeV::Session })
            &&& w.messages == v.messages
            &&& w.share_paths == v.share_paths
        }),
{
}

/// A new chat has no messages and nothing to do; receipts are on until the host
/// says otherwise.
pub proof fn a_new_chat_is_empty(me: Seq<char>, roster: Seq<Seq<char>>)
    ensures
        ({
            let v = ChatV::fresh(me, roster);
            &&& v.me == me
            &&& v.roster == roster
            &&& v.messages.len() == 0
            &&& v.cursors.len() == 0
            &&& v.share_paths.len() == 0
            &&& v.downloads.len() == 0
            &&& v.effects.len() == 0
            &&& v.read_receipts
            &&& !v.stored
        }),
{
}

/// A download is underway where its entry, the first under its id, was
/// requested or is being transferred; a finished or failed one is not.
pub proof fn a_download_is_underway_until_it_ends(downloads: Seq<DownloadV>, id: Seq<u8>, k: int)
    ensures
        0 <= k < downloads.len() && downloads[k].id == id && (forall|j: int|
            0 <= j < k ==> (#[trigger] downloads[j]).id != id) ==> (chat::running(downloads, id)
            <==> downloads[k].phase == "requested"@ || downloads[k].phase == "transferring"@),
        (forall|j: int| 0 <= j < downloads.len() ==> (#[trigger] downloads[j]).id != id)
            ==> !chat::running(downloads, id),
    decreases downloads.len(),
{
    if downloads.len() > 0 {
        let rest = downloads.skip(1);
        a_download_is_underway_until_it_ends(rest, id, k - 1);
        if forall|j: int| 0 <= j < downloads.len() ==> (#[trigger] downloads[j]).id != id {
            assert(downloads[0].id != id);
            assert forall|j: int| 0 <= j < rest.len() implies (#[trigger] rest[j]).id != id by {
                assert(rest[j] == downloads[j + 1]);
            }
        }
        if 0 < k < downloads.len() && downloads[k].id == id && (forall|j: int|
            0 <= j < k ==> (#[trigger] downloads[j]).id != id) {
            assert(downloads[0].id != id);
            assert(rest[k - 1] == downloads[k]);
            assert forall|j: int| 0 <= j < k - 1 implies (#[trigger] rest[j]).id != id by {
                assert(rest[j] == downloads[j + 1]);
            }
        }
    }
}

} // verus!
