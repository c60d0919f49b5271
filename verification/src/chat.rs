//! Chat: the one surface that needs no vote. A command checks what it is
//! asked, records an event and tells the frontends; every message is addressed
//! by its id.

use crate::chat_model::{
    same_id, ChannelRef, ChatError, ChatErrorV, ChatEffectV, ChatEventV, ChatKind, ChatMessage,
    ChatNoticeV, ChatV, CursorV, DownloadV, DownloadView, FileMetaV, MessageId, MessageV,
    PhaseV, ReactOp, Reaction, ReactionV, ReadCursor, SharePath, ShareV, TargetV,
};
use crate::identity;
use crate::identity::hex_decode;
use crate::state;
use crate::state::{ProposalState, State, StateV};
use crate::text;
use crate::text::{has_name, same_text, space};
use crate::votes;
use crate::votes::drop_name;
use vstd::prelude::*;
use vstd::string::*;

verus! {

/// The seconds of a day.
pub const DAY_SECS: u64 = 86_400;

/// Sixteen random bytes from `getrandom::getrandom`, the operating system's
/// source; its error in words where it fails. Nothing is claimed of either.
#[verifier::external_body]
fn random_bytes() -> (r: Result<[u8; 16], String>)
{
    let mut bytes: [u8; 16] = [0u8; 16];
    match getrandom::getrandom(&mut bytes) {
        Ok(()) => Ok(bytes),
        Err(e) => Err(e.to_string()),
    }
}

/// The message id that random bytes are.
pub fn message_id(random: Result<[u8; 16], String>) -> (r: Result<MessageId, ChatError>)
    ensures
        match (random, r) {
            (Ok(bytes), Ok(id)) => id.deep_view() == bytes@,
            (Err(why), Err(e)) => e.deep_view() == (ChatErrorV::NoRandom { why: why@ }),
            _ => false,
        },
{
    match random {
        Ok(bytes) => Ok(MessageId { bytes }),
        Err(why) => Err(ChatError::NoRandom { why }),
    }
}

/// A fresh message id. Whatever the system gives is an id.
pub fn mint_message_id() -> (r: Result<MessageId, ChatError>)
    ensures
        match r {
            Ok(id) => id.deep_view().len() == 16,
            Err(e) => e.deep_view() is NoRandom,
        },
{
    message_id(random_bytes())
}

/// The text without white space at its ends.
pub open spec fn trimmed(t: Seq<char>) -> Seq<char>
    decreases t.len(),
{
    if t.len() == 0 {
        t
    } else if text::is_space(t[0]) {
        trimmed(t.skip(1))
    } else if text::is_space(t.last()) {
        trimmed(t.drop_last())
    } else {
        t
    }
}

/// The text without white space at its ends.
pub fn trim(t: &str) -> (r: String)
    ensures
        r@ == trimmed(t@),
{
    let n: usize = t.unicode_len();
    let mut a: usize = 0;
    let mut b: usize = n;
    assert(t@.subrange(0, n as int) =~= t@);
    while a < b && space(t.get_char(a))
        invariant
            a <= b <= n,
            n == t@.len(),
            b == n,
            trimmed(t@) == trimmed(t@.subrange(a as int, b as int)),
        decreases b - a,
    {
        proof {
            let s = t@.subrange(a as int, b as int);
            assert(s[0] == t@[a as int]);
            assert(s.skip(1) =~= t@.subrange(a + 1, b as int));
        }
        a = a + 1;
    }
    while a < b && space(t.get_char(b - 1))
        invariant
            a <= b <= n,
            n == t@.len(),
            a < b ==> !text::is_space(t@[a as int]),
            trimmed(t@) == trimmed(t@.subrange(a as int, b as int)),
        decreases b - a,
    {
        proof {
            let s = t@.subrange(a as int, b as int);
            assert(s[0] == t@[a as int]);
            assert(s.last() == t@[b - 1]);
            assert(s.drop_last() =~= t@.subrange(a as int, b - 1));
        }
        b = b - 1;
    }
    proof {
        let s = t@.subrange(a as int, b as int);
        if a < b {
            assert(s[0] == t@[a as int]);
            assert(s.last() == t@[b - 1]);
        }
    }
    t.substring_char(a, b).to_owned()
}

/// The reaction that a text is: trimmed, and at most four characters.
pub open spec fn emoji_of(t: Seq<char>) -> Option<Seq<char>> {
    let e = trimmed(t);
    if e.len() == 0 || e.len() > 4 {
        None
    } else {
        Some(e)
    }
}

/// The reaction that a text is, if it is one. What the seat sends and what it
/// receives are held to the same.
pub fn sanitize_emoji(emoji: &str) -> (r: Option<String>)
    ensures
        r.deep_view() == emoji_of(emoji@),
{
    let e = trim(emoji);
    let n: usize = e.as_str().unicode_len();
    if n == 0 || n > 4 {
        None
    } else {
        Some(e)
    }
}

/// The message id that the hex digits spell.
pub open spec fn id_of(t: Seq<char>) -> Option<Seq<u8>> {
    match identity::unhex(t) {
        Some(bytes) => if bytes.len() == 16 {
            Some(bytes)
        } else {
            None
        },
        None => None,
    }
}

/// The message id that the hex digits spell.
pub fn parse_id(t: &str) -> (r: Option<MessageId>)
    ensures
        r.deep_view() == id_of(t@),
{
    match hex_decode(t) {
        Some(v) => {
            if v.len() != 16 {
                return None;
            }
            let mut bytes: [u8; 16] = [0u8; 16];
            let mut i: usize = 0;
            while i < 16
                invariant
                    i <= 16,
                    v.len() == 16,
                    forall|k: int| 0 <= k < i ==> bytes@[k] == v@[k],
                decreases 16 - i,
            {
                bytes[i] = v[i];
                i = i + 1;
            }
            assert(bytes@ =~= v@);
            Some(MessageId { bytes })
        },
        None => None,
    }
}

/// The place of a message in the log.
pub open spec fn place_of(messages: Seq<MessageV>, id: Seq<u8>) -> Option<nat>
    decreases messages.len(),
{
    if messages.len() == 0 {
        None
    } else if messages[0].id == id {
        Some(0)
    } else {
        match place_of(messages.skip(1), id) {
            Some(n) => Some(n + 1),
            None => None,
        }
    }
}

/// A message that has a place is at that place.
pub proof fn lemma_place(messages: Seq<MessageV>, id: Seq<u8>)
    ensures
        place_of(messages, id) is Some ==> place_of(messages, id)->0 < messages.len()
            && messages[place_of(messages, id)->0 as int].id == id,
    decreases messages.len(),
{
    if messages.len() > 0 && messages[0].id != id {
        lemma_place(messages.skip(1), id);
    }
}

/// The place of a message in the log.
pub fn find_message(messages: &Vec<ChatMessage>, id: &MessageId) -> (r: Option<usize>)
    ensures
        match r {
            Some(i) => {
                &&& place_of(messages.deep_view(), id.deep_view()) == Some(i as nat)
                &&& i < messages.len()
            },
            None => place_of(messages.deep_view(), id.deep_view()) is None,
        },
{
    let ghost all = messages.deep_view();
    let ghost want = id.deep_view();
    let mut i: usize = 0;
    assert(all.skip(0) =~= all);
    while i < messages.len()
        invariant
            i <= messages.len(),
            all == messages.deep_view(),
            want == id.deep_view(),
            match place_of(all.skip(i as int), want) {
                Some(n) => place_of(all, want) == Some((n + i) as nat),
                None => place_of(all, want) is None,
            },
        decreases messages.len() - i,
    {
        assert(all.skip(i as int)[0] == messages@[i as int].deep_view());
        if same_id(&messages[i].id, id) {
            return Some(i);
        }
        assert(all.skip(i as int).skip(1) =~= all.skip(i + 1));
        i = i + 1;
    }
    assert(all.skip(i as int) =~= Seq::empty());
    None
}

/// Everybody's reactions but a member's, apart from the emoji that is kept.
pub open spec fn voice_dropped(list: Seq<ReactionV>, by: Seq<char>, kept: Seq<char>) -> Seq<
    ReactionV,
>
    decreases list.len(),
{
    if list.len() == 0 {
        list
    } else {
        let rest = voice_dropped(list.drop_last(), by, kept);
        let entry = list.last();
        if entry.emoji == kept {
            rest.push(entry)
        } else {
            let who = votes::names_without(entry.who, by);
            if who.len() == 0 {
                rest
            } else {
                rest.push(ReactionV { emoji: entry.emoji, who })
            }
        }
    }
}

/// The reactions with a member under an emoji.
pub open spec fn voice_added(list: Seq<ReactionV>, by: Seq<char>, emoji: Seq<char>) -> Seq<ReactionV>
    decreases list.len(),
{
    if list.len() == 0 {
        seq![ReactionV { emoji, who: seq![by] }]
    } else if list[0].emoji == emoji {
        seq![
            ReactionV {
                emoji,
                who: if list[0].who.contains(by) {
                    list[0].who
                } else {
                    list[0].who.push(by)
                },
            },
        ] + list.skip(1)
    } else {
        seq![list[0]] + voice_added(list.skip(1), by, emoji)
    }
}

/// The reactions with a member taken from an emoji.
pub open spec fn voice_taken(list: Seq<ReactionV>, by: Seq<char>, emoji: Seq<char>) -> Seq<ReactionV>
    decreases list.len(),
{
    if list.len() == 0 {
        list
    } else {
        let rest = voice_taken(list.drop_last(), by, emoji);
        let entry = list.last();
        if entry.emoji != emoji {
            rest.push(entry)
        } else {
            let who = votes::names_without(entry.who, by);
            if who.len() == 0 {
                rest
            } else {
                rest.push(ReactionV { emoji: entry.emoji, who })
            }
        }
    }
}

/// Is a member under that emoji?
pub open spec fn has_voice(list: Seq<ReactionV>, by: Seq<char>, emoji: Seq<char>) -> bool {
    exists|i: int|
        0 <= i < list.len() && (#[trigger] list[i]).emoji == emoji && list[i].who.contains(by)
}

/// Is a member under that emoji?
pub fn voices(list: &Vec<Reaction>, by: &str, emoji: &str) -> (r: bool)
    ensures
        r == has_voice(list.deep_view(), by@, emoji@),
{
    let ghost all = list.deep_view();
    let mut i: usize = 0;
    while i < list.len()
        invariant
            i <= list.len(),
            all == list.deep_view(),
            forall|k: int|
                0 <= k < i ==> !((#[trigger] all[k]).emoji == emoji@ && all[k].who.contains(by@)),
        decreases list.len() - i,
    {
        assert(all[i as int] == list@[i as int].deep_view());
        if same_text(list[i].emoji.as_str(), emoji) && has_name(&list[i].who, by) {
            return true;
        }
        i = i + 1;
    }
    false
}

/// Drops a member's other reactions, or its reaction under one emoji.
pub fn drop_voice(list: &Vec<Reaction>, by: &str, emoji: &str, others: bool) -> (r: Vec<Reaction>)
    ensures
        others ==> r.deep_view() == voice_dropped(list.deep_view(), by@, emoji@),
        !others ==> r.deep_view() == voice_taken(list.deep_view(), by@, emoji@),
{
    let ghost all = list.deep_view();
    let mut out: Vec<Reaction> = Vec::new();
    let mut i: usize = 0;
    assert(all.take(0) =~= Seq::empty());
    assert(out.deep_view() =~= Seq::empty());
    while i < list.len()
        invariant
            i <= list.len(),
            all == list.deep_view(),
            others ==> out.deep_view() == voice_dropped(all.take(i as int), by@, emoji@),
            !others ==> out.deep_view() == voice_taken(all.take(i as int), by@, emoji@),
        decreases list.len() - i,
    {
        let ghost done = out.deep_view();
        let entry = &list[i];
        proof {
            assert(all.take(i + 1).drop_last() =~= all.take(i as int));
            assert(all.take(i + 1).last() == entry.deep_view());
        }
        if same_text(entry.emoji.as_str(), emoji) == others {
            let copy = entry.clone();
            out.push(copy);
            assert(out.deep_view() =~= done.push(copy.deep_view()));
        } else {
            let who = drop_name(&entry.who, by);
            if who.len() > 0 {
                let left = Reaction { emoji: entry.emoji.clone(), who };
                out.push(left);
                assert(out.deep_view() =~= done.push(left.deep_view()));
            }
        }
        i = i + 1;
    }
    assert(all.take(i as int) =~= all);
    out
}

/// Puts a member under an emoji.
pub fn add_voice(list: &mut Vec<Reaction>, by: &str, emoji: &str)
    ensures
        final(list).deep_view() == voice_added(old(list).deep_view(), by@, emoji@),
{
    let ghost all = list.deep_view();
    let mut i: usize = 0;
    proof {
        assert(all.skip(0) =~= all);
        assert(all.take(0) + voice_added(all.skip(0), by@, emoji@) =~= voice_added(
            all,
            by@,
            emoji@,
        ));
    }
    while i < list.len()
        invariant
            i <= list.len(),
            all == list.deep_view(),
            all == old(list).deep_view(),
            voice_added(all, by@, emoji@) == all.take(i as int) + voice_added(
                all.skip(i as int),
                by@,
                emoji@,
            ),
        decreases list.len() - i,
    {
        proof {
            assert(all.skip(i as int)[0] == list@[i as int].deep_view());
            assert(all.skip(i as int).skip(1) =~= all.skip(i + 1));
        }
        if same_text(list[i].emoji.as_str(), emoji) {
            let mut entry = list[i].clone();
            let ghost who = entry.who.deep_view();
            if !has_name(&entry.who, by) {
                entry.who.push(by.to_owned());
                assert(entry.who.deep_view() =~= who.push(by@));
            }
            list[i] = entry;
            proof {
                assert(list.deep_view() =~= all.take(i as int) + (seq![entry.deep_view()]
                    + all.skip(i + 1)));
            }
            return;
        }
        proof {
            assert(all.take(i as int) + (seq![all[i as int]] + voice_added(
                all.skip(i + 1),
                by@,
                emoji@,
            )) =~= all.take(i + 1) + voice_added(all.skip(i + 1), by@, emoji@));
        }
        i = i + 1;
    }
    let who: Vec<String> = vec![by.to_owned()];
    assert(who.deep_view() =~= seq![by@]);
    let entry = Reaction { emoji: emoji.to_owned(), who };
    list.push(entry);
    proof {
        assert(all.skip(i as int) =~= Seq::empty());
        assert(all.take(i as int) =~= all);
        assert(list.deep_view() =~= all.push(entry.deep_view()));
        assert(all + seq![entry.deep_view()] =~= all.push(entry.deep_view()));
    }
}

/// A message with a reaction set or removed; without an operation it is
/// toggled. A member is under one emoji at most, and a deleted message takes
/// no reactions.
pub open spec fn reacted(
    m: MessageV,
    by: Seq<char>,
    emoji: Seq<char>,
    op: Option<ReactOp>,
) -> MessageV {
    let adds = match op {
        Some(ReactOp::Add) => true,
        Some(ReactOp::Remove) => false,
        None => !has_voice(m.reactions, by, emoji),
    };
    if m.deleted_by is Some {
        m
    } else if adds {
        MessageV {
            reactions: voice_added(voice_dropped(m.reactions, by, emoji), by, emoji),
            ..m
        }
    } else {
        MessageV { reactions: voice_taken(m.reactions, by, emoji), ..m }
    }
}

/// A message that a member has read. Its author never receipts it, and a
/// deleted one carries no receipts.
pub open spec fn seen_by(m: MessageV, by: Seq<char>) -> MessageV {
    if m.deleted_by is Some || m.from == by {
        m
    } else {
        MessageV { read_by: text::insert_name(m.read_by, by), ..m }
    }
}

/// A message deleted by its author: only the notice is left.
pub open spec fn wiped(m: MessageV, by: Seq<char>) -> MessageV {
    if m.from != by {
        m
    } else {
        MessageV {
            body: Seq::empty(),
            quote_id: None,
            file: None,
            deleted_by: Some(by),
            reactions: Seq::empty(),
            read_by: Seq::empty(),
            ..m
        }
    }
}

/// A message whose file its author removed.
pub open spec fn file_gone(m: MessageV, by: Seq<char>) -> MessageV {
    match m.file {
        Some(f) if m.from == by => MessageV {
            file: Some(FileMetaV { available: false, ..f }),
            ..m
        },
        _ => m,
    }
}

/// The cursor of a channel.
pub open spec fn cursor_of(cursors: Seq<CursorV>, channel: ChannelRef) -> Option<Seq<char>>
    decreases cursors.len(),
{
    if cursors.len() == 0 {
        None
    } else if cursors[0].channel == channel {
        Some(cursors[0].id)
    } else {
        cursor_of(cursors.skip(1), channel)
    }
}

/// The cursors with a channel's moved.
pub open spec fn cursors_with(cursors: Seq<CursorV>, channel: ChannelRef, id: Seq<char>) -> Seq<
    CursorV,
>
    decreases cursors.len(),
{
    if cursors.len() == 0 {
        seq![CursorV { channel, id }]
    } else if cursors[0].channel == channel {
        seq![CursorV { channel, id }] + cursors.skip(1)
    } else {
        seq![cursors[0]] + cursors_with(cursors.skip(1), channel, id)
    }
}

/// The cursor of a channel.
pub fn find_cursor(cursors: &Vec<ReadCursor>, channel: ChannelRef) -> (r: Option<String>)
    ensures
        r.deep_view() == cursor_of(cursors.deep_view(), channel),
{
    let ghost all = cursors.deep_view();
    let mut i: usize = 0;
    assert(all.skip(0) =~= all);
    while i < cursors.len()
        invariant
            i <= cursors.len(),
            all == cursors.deep_view(),
            cursor_of(all, channel) == cursor_of(all.skip(i as int), channel),
        decreases cursors.len() - i,
    {
        assert(all.skip(i as int)[0] == cursors@[i as int].deep_view());
        if cursors[i].channel == channel {
            return Some(cursors[i].id.clone());
        }
        assert(all.skip(i as int).skip(1) =~= all.skip(i + 1));
        i = i + 1;
    }
    None
}

/// Moves the cursor of a channel.
pub fn set_cursor(cursors: &mut Vec<ReadCursor>, channel: ChannelRef, id: String)
    ensures
        final(cursors).deep_view() == cursors_with(old(cursors).deep_view(), channel, id@),
{
    let ghost all = cursors.deep_view();
    let ghost v = id@;
    let mut i: usize = 0;
    proof {
        assert(all.skip(0) =~= all);
        assert(all.take(0) + cursors_with(all.skip(0), channel, v) =~= cursors_with(
            all,
            channel,
            v,
        ));
    }
    while i < cursors.len()
        invariant
            i <= cursors.len(),
            all == cursors.deep_view(),
            all == old(cursors).deep_view(),
            v == id@,
            cursors_with(all, channel, v) == all.take(i as int) + cursors_with(
                all.skip(i as int),
                channel,
                v,
            ),
        decreases cursors.len() - i,
    {
        proof {
            assert(all.skip(i as int)[0] == cursors@[i as int].deep_view());
            assert(all.skip(i as int).skip(1) =~= all.skip(i + 1));
        }
        if cursors[i].channel == channel {
            let entry = ReadCursor { channel, id };
            cursors[i] = entry;
            proof {
                assert(cursors.deep_view() =~= all.take(i as int) + (seq![entry.deep_view()]
                    + all.skip(i + 1)));
            }
            return;
        }
        proof {
            assert(all.take(i as int) + (seq![all[i as int]] + cursors_with(
                all.skip(i + 1),
                channel,
                v,
            )) =~= all.take(i + 1) + cursors_with(all.skip(i + 1), channel, v));
        }
        i = i + 1;
    }
    let entry = ReadCursor { channel, id };
    cursors.push(entry);
    proof {
        assert(all.skip(i as int) =~= Seq::empty());
        assert(all.take(i as int) =~= all);
        assert(cursors.deep_view() =~= all.push(entry.deep_view()));
        assert(all + seq![entry.deep_view()] =~= all.push(entry.deep_view()));
    }
}

/// The local path of a share.
pub open spec fn path_of(shares: Seq<ShareV>, id: Seq<u8>) -> Option<Seq<char>>
    decreases shares.len(),
{
    if shares.len() == 0 {
        None
    } else if shares[0].id == id {
        Some(shares[0].path)
    } else {
        path_of(shares.skip(1), id)
    }
}

/// The share paths without one.
pub open spec fn paths_without(shares: Seq<ShareV>, id: Seq<u8>) -> Seq<ShareV>
    decreases shares.len(),
{
    if shares.len() == 0 {
        shares
    } else if shares.last().id == id {
        paths_without(shares.drop_last(), id)
    } else {
        paths_without(shares.drop_last(), id).push(shares.last())
    }
}

/// The local path of a share.
pub fn find_path(shares: &Vec<SharePath>, id: &MessageId) -> (r: Option<String>)
    ensures
        r.deep_view() == path_of(shares.deep_view(), id.deep_view()),
{
    let ghost all = shares.deep_view();
    let mut i: usize = 0;
    assert(all.skip(0) =~= all);
    while i < shares.len()
        invariant
            i <= shares.len(),
            all == shares.deep_view(),
            path_of(all, id.deep_view()) == path_of(all.skip(i as int), id.deep_view()),
        decreases shares.len() - i,
    {
        assert(all.skip(i as int)[0] == shares@[i as int].deep_view());
        if same_id(&shares[i].id, id) {
            return Some(shares[i].path.clone());
        }
        assert(all.skip(i as int).skip(1) =~= all.skip(i + 1));
        i = i + 1;
    }
    None
}

/// The share paths without one.
pub fn drop_path(shares: &Vec<SharePath>, id: &MessageId) -> (r: Vec<SharePath>)
    ensures
        r.deep_view() == paths_without(shares.deep_view(), id.deep_view()),
{
    let ghost all = shares.deep_view();
    let mut out: Vec<SharePath> = Vec::new();
    let mut i: usize = 0;
    assert(all.take(0) =~= Seq::empty());
    assert(out.deep_view() =~= Seq::empty());
    while i < shares.len()
        invariant
            i <= shares.len(),
            all == shares.deep_view(),
            out.deep_view() == paths_without(all.take(i as int), id.deep_view()),
        decreases shares.len() - i,
    {
        let ghost done = out.deep_view();
        proof {
            assert(all.take(i + 1).drop_last() =~= all.take(i as int));
            assert(all.take(i + 1).last() == shares@[i as int].deep_view());
        }
        if !same_id(&shares[i].id, id) {
            out.push(shares[i].clone());
            assert(out.deep_view() =~= done.push(shares@[i as int].deep_view()));
        }
        i = i + 1;
    }
    assert(all.take(i as int) =~= all);
    out
}

/// The download of a message.
pub open spec fn download_of(downloads: Seq<DownloadV>, id: Seq<u8>) -> Option<DownloadV>
    decreases downloads.len(),
{
    if downloads.len() == 0 {
        None
    } else if downloads[0].id == id {
        Some(downloads[0])
    } else {
        download_of(downloads.skip(1), id)
    }
}

/// The downloads without one.
pub open spec fn downloads_without(downloads: Seq<DownloadV>, id: Seq<u8>) -> Seq<DownloadV>
    decreases downloads.len(),
{
    if downloads.len() == 0 {
        downloads
    } else if downloads.last().id == id {
        downloads_without(downloads.drop_last(), id)
    } else {
        downloads_without(downloads.drop_last(), id).push(downloads.last())
    }
}

/// Is that download running?
pub open spec fn running(downloads: Seq<DownloadV>, id: Seq<u8>) -> bool {
    match download_of(downloads, id) {
        Some(d) => d.phase == "requested"@ || d.phase == "transferring"@,
        None => false,
    }
}

/// Is that download running?
pub fn is_running(downloads: &Vec<DownloadView>, id: &MessageId) -> (r: bool)
    ensures
        r == running(downloads.deep_view(), id.deep_view()),
{
    let ghost all = downloads.deep_view();
    let mut i: usize = 0;
    assert(all.skip(0) =~= all);
    while i < downloads.len()
        invariant
            i <= downloads.len(),
            all == downloads.deep_view(),
            download_of(all, id.deep_view()) == download_of(all.skip(i as int), id.deep_view()),
        decreases downloads.len() - i,
    {
        assert(all.skip(i as int)[0] == downloads@[i as int].deep_view());
        if same_id(&downloads[i].id, id) {
            return same_text(downloads[i].phase.as_str(), "requested") || same_text(
                downloads[i].phase.as_str(),
                "transferring",
            );
        }
        assert(all.skip(i as int).skip(1) =~= all.skip(i + 1));
        i = i + 1;
    }
    false
}

/// The downloads without one.
pub fn drop_download(downloads: &Vec<DownloadView>, id: &MessageId) -> (r: Vec<DownloadView>)
    ensures
        r.deep_view() == downloads_without(downloads.deep_view(), id.deep_view()),
{
    let ghost all = downloads.deep_view();
    let mut out: Vec<DownloadView> = Vec::new();
    let mut i: usize = 0;
    assert(all.take(0) =~= Seq::empty());
    assert(out.deep_view() =~= Seq::empty());
    while i < downloads.len()
        invariant
            i <= downloads.len(),
            all == downloads.deep_view(),
            out.deep_view() == downloads_without(all.take(i as int), id.deep_view()),
        decreases downloads.len() - i,
    {
        let ghost done = out.deep_view();
        proof {
            assert(all.take(i + 1).drop_last() =~= all.take(i as int));
            assert(all.take(i + 1).last() == downloads@[i as int].deep_view());
        }
        if !same_id(&downloads[i].id, id) {
            out.push(downloads[i].clone());
            assert(out.deep_view() =~= done.push(downloads@[i as int].deep_view()));
        }
        i = i + 1;
    }
    assert(all.take(i as int) =~= all);
    out
}

/// A phase as it is shown.
pub open spec fn shown(id: Seq<u8>, phase: PhaseV) -> DownloadV {
    match phase {
        PhaseV::Requested => DownloadV {
            id,
            phase: "requested"@,
            percent: 0,
            path: Seq::empty(),
            error: Seq::empty(),
        },
        PhaseV::Progress { percent } => DownloadV {
            id,
            phase: "transferring"@,
            percent,
            path: Seq::empty(),
            error: Seq::empty(),
        },
        PhaseV::Done { path } => DownloadV {
            id,
            phase: "done"@,
            percent: 100,
            path,
            error: Seq::empty(),
        },
        PhaseV::Failed { reason } => DownloadV {
            id,
            phase: "failed"@,
            percent: 0,
            path: Seq::empty(),
            error: reason,
        },
    }
}

impl StateV {
    /// The verdict on a discussion that is closed: the vote it is about is
    /// known here and was decided. A discussion of something unknown is open.
    pub open spec fn closed(self, channel: ChannelRef) -> Option<ChatErrorV> {
        match channel {
            ChannelRef::Patch { id } => match self.card_state(id) {
                Some(state) if state != ProposalState::Proposed => Some(
                    ChatErrorV::DiscussionClosed { patch: id, state },
                ),
                _ => None,
            },
            ChannelRef::Group => None,
        }
    }
}

impl State {
    /// Refuses to write into the discussion of a decided vote. Only what this
    /// seat sends is held to this: what arrives is kept, so that logs agree.
    pub fn ensure_channel_writable(&self, channel: ChannelRef) -> (r: Result<(), ChatError>)
        ensures
            match r {
                Ok(()) => self.deep_view().closed(channel) is None,
                Err(e) => self.deep_view().closed(channel) == Some(e.deep_view()),
            },
    {
        match channel {
            ChannelRef::Patch { id } => match self.proposals.get(id) {
                Some(p) => {
                    if p.state != ProposalState::Proposed {
                        return Err(ChatError::DiscussionClosed { patch: id, state: p.state });
                    }
                    Ok(())
                },
                None => Ok(()),
            },
            ChannelRef::Group => Ok(()),
        }
    }
}

impl ChatV {
    /// One more thing for the host to do.
    pub open spec fn doing(self, effect: ChatEffectV) -> ChatV {
        ChatV { effects: self.effects.push(effect), ..self }
    }

    /// One more thing to tell the frontends.
    pub open spec fn telling(self, notice: ChatNoticeV) -> ChatV {
        self.doing(ChatEffectV::Tell { notice })
    }

    /// The time before which a message is not shown any more.
    pub open spec fn cutoff(self) -> u64 {
        if self.now >= self.retention_days * DAY_SECS {
            (self.now - self.retention_days * DAY_SECS) as u64
        } else {
            0
        }
    }

    /// Is a message of that time not shown any more? One whose age is not
    /// known is.
    pub open spec fn aged(self, ts: u64) -> bool {
        state::aged_out(self.cutoff(), ts)
    }

    /// A message changed in its place, if it is known.
    pub open spec fn message_at(self, id: Seq<u8>) -> Option<MessageV> {
        match place_of(self.messages, id) {
            Some(n) => Some(self.messages[n as int]),
            None => None,
        }
    }

    /// That message replaced.
    pub open spec fn replacing(self, id: Seq<u8>, m: MessageV) -> ChatV {
        match place_of(self.messages, id) {
            Some(n) => ChatV { messages: self.messages.update(n as int, m), ..self },
            None => self,
        }
    }

    /// Several messages read by a member.
    pub open spec fn read_each(self, ids: Seq<Seq<u8>>, by: Seq<char>) -> ChatV
        decreases ids.len(),
    {
        if ids.len() == 0 {
            self
        } else {
            let rest = self.read_each(ids.drop_last(), by);
            match rest.message_at(ids.last()) {
                Some(m) => rest.replacing(ids.last(), seen_by(m, by)),
                None => rest,
            }
        }
    }

    /// What an event changes. It changes nothing of a message that is not
    /// known; a message that is known is not added again.
    pub open spec fn applied(self, event: ChatEventV) -> ChatV {
        match event {
            ChatEventV::Chat { msg } => if place_of(self.messages, msg.id) is Some {
                self
            } else {
                ChatV { messages: self.messages.push(msg), ..self }
            },
            ChatEventV::Reacted { id, emoji, by, op, .. } => match self.message_at(id) {
                Some(m) => self.replacing(id, reacted(m, by, emoji, op)),
                None => self,
            },
            ChatEventV::Read { ids, by } => self.read_each(ids, by),
            ChatEventV::Deleted { id, by, .. } => match self.message_at(id) {
                Some(m) => self.replacing(id, wiped(m, by)),
                None => self,
            },
            ChatEventV::FileRemoved { id, by, .. } => match self.message_at(id) {
                Some(m) => self.replacing(id, file_gone(m, by)),
                None => self,
            },
        }
    }

    /// An event applied and handed to the log.
    pub open spec fn recording(self, event: ChatEventV) -> ChatV {
        self.applied(event).doing(ChatEffectV::Record { event })
    }

    /// The message that a post makes. A quote sticks only where it points at
    /// a known message.
    pub open spec fn message_for(
        self,
        id: Seq<u8>,
        from: Seq<char>,
        body: Seq<char>,
        quote: Option<Seq<u8>>,
        channel: ChannelRef,
        kind: ChatKind,
        file: Option<FileMetaV>,
    ) -> MessageV {
        MessageV {
            id,
            from,
            body,
            ts: self.now,
            channel,
            kind,
            quote_id: if quote is Some && place_of(self.messages, quote->0) is Some {
                quote
            } else {
                None
            },
            file,
            deleted_by: None,
            reactions: Seq::empty(),
            read_by: Seq::empty(),
        }
    }

    /// A message posted under that id.
    pub open spec fn posting(
        self,
        id: Seq<u8>,
        from: Seq<char>,
        body: Seq<char>,
        quote: Option<Seq<u8>>,
        channel: ChannelRef,
        kind: ChatKind,
    ) -> ChatV {
        self.recording(
            ChatEventV::Chat {
                msg: self.message_for(id, from, body, quote, channel, kind, None),
            },
        ).telling(ChatNoticeV::Chat { id, from, body, channel })
    }

    /// A file shared under that id.
    pub open spec fn sharing(
        self,
        id: Seq<u8>,
        file: FileMetaV,
        path: Seq<char>,
        channel: ChannelRef,
    ) -> ChatV {
        let meta = FileMetaV {
            modified: if file.modified == 0 {
                self.now
            } else {
                file.modified
            },
            available: true,
            ..file
        };
        let sent = self.recording(
            ChatEventV::Chat {
                msg: self.message_for(
                    id,
                    self.me,
                    Seq::empty(),
                    None,
                    channel,
                    ChatKind::User,
                    Some(meta),
                ),
            },
        );
        (ChatV {
            share_paths: paths_without(sent.share_paths, id).push(ShareV { id, path }),
            ..sent
        }).doing(ChatEffectV::SavePrefs).telling(
            ChatNoticeV::Chat { id, from: self.me, body: "📎 "@ + file.name, channel },
        )
    }

    /// A share's path forgotten, where there is one.
    pub open spec fn path_forgotten(self, id: Seq<u8>) -> ChatV {
        if path_of(self.share_paths, id) is Some {
            (ChatV { share_paths: paths_without(self.share_paths, id), ..self }).doing(
                ChatEffectV::SavePrefs,
            )
        } else {
            self
        }
    }

    /// Where a channel was read to, as a place in the log. A cursor whose
    /// message is gone is no cursor.
    pub open spec fn read_to(self, channel: ChannelRef) -> Option<nat> {
        match cursor_of(self.cursors, channel) {
            Some(hex) => match id_of(hex) {
                Some(id) => place_of(self.messages, id),
                None => None,
            },
            None => None,
        }
    }

    /// Is a message unread? A seat's own message never is.
    pub open spec fn unread(self, m: MessageV) -> bool {
        &&& m.from != self.me
        &&& match self.read_to(m.channel) {
            None => true,
            Some(c) => match place_of(self.messages, m.id) {
                Some(p) => p > c,
                None => true,
            },
        }
    }

    /// The newest shown message of a channel among the first `n`.
    pub open spec fn newest(self, channel: ChannelRef, n: int) -> Option<Seq<u8>>
        decreases n,
    {
        if n <= 0 {
            None
        } else {
            let m = self.messages[n - 1];
            if m.channel == channel && !self.aged(m.ts) {
                Some(m.id)
            } else {
                self.newest(channel, n - 1)
            }
        }
    }

    /// The cursors that mark the first `n` messages read.
    pub open spec fn all_read(self, n: int) -> Seq<CursorV>
        decreases n,
    {
        if n <= 0 {
            Seq::empty()
        } else {
            let rest = self.all_read(n - 1);
            let m = self.messages[n - 1];
            if self.aged(m.ts) {
                rest
            } else {
                cursors_with(rest, m.channel, identity::hex_text(m.id))
            }
        }
    }

    /// The saved cursors taken over. Without any, everything shown counts as
    /// read: a workspace does not open with its whole history unread.
    pub open spec fn cursors_adopted(self, saved: Seq<CursorV>) -> ChatV {
        let read = self.all_read(self.messages.len() as int);
        if saved.len() > 0 {
            ChatV { cursors: saved, ..self }
        } else if read.len() == 0 {
            ChatV { cursors: Seq::empty(), ..self }
        } else {
            (ChatV { cursors: read, ..self }).doing(ChatEffectV::SavePrefs)
        }
    }

    /// Was that place of a channel read already?
    pub open spec fn was_read(self, channel: ChannelRef, place: nat) -> bool {
        self.read_to(channel) is Some && place <= self.read_to(channel)->0
    }

    /// What a request to mark a channel read is about: a message, nothing, or
    /// a refusal. What was read already is no such message.
    pub open spec fn mark_target(self, channel: ChannelRef, up_to: Seq<char>) -> Result<
        Option<Seq<u8>>,
        ChatErrorV,
    > {
        let wanted = trimmed(up_to);
        if wanted.len() == 0 {
            match self.newest(channel, self.messages.len() as int) {
                None => Ok(None),
                Some(id) => if place_of(self.messages, id) is Some && self.was_read(
                    channel,
                    place_of(self.messages, id)->0,
                ) {
                    Ok(None)
                } else {
                    Ok(Some(id))
                },
            }
        } else {
            match id_of(wanted) {
                None => Err(ChatErrorV::BadUpTo),
                Some(id) => match place_of(self.messages, id) {
                    None => Err(ChatErrorV::UnknownUpTo),
                    Some(p) => if self.messages[p as int].channel != channel {
                        Err(ChatErrorV::ForeignUpTo)
                    } else if self.was_read(channel, p) {
                        Ok(None)
                    } else {
                        Ok(Some(id))
                    },
                },
            }
        }
    }

    /// A channel marked read through that message.
    pub open spec fn marked(self, channel: ChannelRef, id: Seq<u8>) -> ChatV {
        (ChatV {
            cursors: cursors_with(self.cursors, channel, identity::hex_text(id)),
            ..self
        }).doing(ChatEffectV::SavePrefs)
    }

    /// Can this seat honestly receipt that message: one of somebody else's
    /// that is there, and that it has not receipted before?
    pub open spec fn receiptable(self, id: Seq<u8>) -> bool {
        match self.message_at(id) {
            Some(m) => {
                &&& m.deleted_by is None
                &&& m.kind == ChatKind::User
                &&& m.from != self.me
                &&& !m.read_by.contains(self.me)
            },
            None => false,
        }
    }

    /// The ids to receipt, each once, in order.
    pub open spec fn to_receipt(self, ids: Seq<Seq<u8>>) -> Seq<Seq<u8>>
        decreases ids.len(),
    {
        if ids.len() == 0 {
            Seq::empty()
        } else {
            let rest = self.to_receipt(ids.drop_last());
            if !rest.contains(ids.last()) && self.receiptable(ids.last()) {
                rest.push(ids.last())
            } else {
                rest
            }
        }
    }

    /// Messages receipted. Where receipts are off, or nothing is left to
    /// receipt, nothing is said.
    pub open spec fn receipting(self, ids: Seq<Seq<u8>>) -> ChatV {
        let fresh = self.to_receipt(ids);
        if !self.read_receipts || fresh.len() == 0 {
            self
        } else {
            self.recording(ChatEventV::Read { ids: fresh, by: self.me }).telling(
                ChatNoticeV::Read { ids: fresh, by: self.me },
            )
        }
    }

    /// The verdict on a reaction.
    pub open spec fn react_refusal(self, id: Seq<u8>, emoji: Seq<char>) -> Option<ChatErrorV> {
        if emoji_of(emoji) is None {
            Some(ChatErrorV::BadEmoji)
        } else {
            match self.message_at(id) {
                None => Some(ChatErrorV::UnknownMessage { id }),
                Some(m) => if m.deleted_by is Some {
                    Some(ChatErrorV::Tombstone)
                } else {
                    None
                },
            }
        }
    }

    /// A reaction of this seat: the emoji it already picked is removed, any
    /// other is set.
    pub open spec fn reacting(self, id: Seq<u8>, emoji: Seq<char>) -> ChatV {
        let e = emoji_of(emoji)->0;
        let op = if has_voice(self.message_at(id)->0.reactions, self.me, e) {
            ReactOp::Remove
        } else {
            ReactOp::Add
        };
        self.recording(
            ChatEventV::Reacted {
                index: place_of(self.messages, id)->0 as u64,
                id,
                emoji: e,
                by: self.me,
                op: Some(op),
            },
        ).telling(ChatNoticeV::Reacted { id, emoji: e, by: self.me })
    }

    /// A message of this seat deleted for everybody.
    pub open spec fn deleting(self, id: Seq<u8>) -> ChatV {
        self.recording(
            ChatEventV::Deleted {
                index: place_of(self.messages, id)->0 as u64,
                id,
                by: self.me,
            },
        ).path_forgotten(id).telling(ChatNoticeV::Deleted { id, by: self.me })
    }

    /// The verdict on deleting a message: only its author may.
    pub open spec fn delete_refusal(self, id: Seq<u8>) -> Option<ChatErrorV> {
        match self.message_at(id) {
            None => Some(ChatErrorV::UnknownMessage { id }),
            Some(m) => if m.from != self.me {
                Some(ChatErrorV::NotYourMessage { id })
            } else {
                None
            },
        }
    }

    /// The verdict on removing a shared file.
    pub open spec fn remove_refusal(self, id: Seq<u8>) -> Option<ChatErrorV> {
        match self.message_at(id) {
            None => Some(ChatErrorV::UnknownMessage { id }),
            Some(m) => match m.file {
                None => Some(ChatErrorV::NoFile { id }),
                Some(f) => if m.from != self.me {
                    Some(ChatErrorV::NotYourFile { id })
                } else if !f.available {
                    Some(ChatErrorV::FileUnavailable { id })
                } else {
                    None
                },
            },
        }
    }

    /// A shared file of this seat removed for everybody.
    pub open spec fn removing(self, id: Seq<u8>) -> ChatV {
        self.recording(
            ChatEventV::FileRemoved {
                index: place_of(self.messages, id)->0 as u64,
                id,
                by: self.me,
            },
        ).path_forgotten(id).telling(ChatNoticeV::FileRemoved { id, by: self.me })
    }

    /// A download in that phase.
    pub open spec fn phase_set(self, id: Seq<u8>, phase: PhaseV) -> ChatV {
        (ChatV {
            downloads: downloads_without(self.downloads, id).push(shown(id, phase)),
            ..self
        }).telling(ChatNoticeV::FileTransfer { id, phase })
    }

    /// The verdict on a download. `mesh_ready` says whether the members are
    /// real nodes that can be reached.
    pub open spec fn download_refusal(self, id: Seq<u8>, mesh_ready: bool) -> Option<ChatErrorV> {
        match self.message_at(id) {
            None => Some(ChatErrorV::UnknownMessage { id }),
            Some(m) => match m.file {
                None => Some(ChatErrorV::NoFile { id }),
                Some(f) => if !f.available {
                    Some(ChatErrorV::FileUnavailable { id })
                } else if self.aged(m.ts) {
                    Some(ChatErrorV::FileExpired { id })
                } else if running(self.downloads, id) {
                    Some(ChatErrorV::AlreadyDownloading)
                } else if m.from == self.me {
                    if path_of(self.share_paths, id) is None {
                        Some(ChatErrorV::UnknownSource)
                    } else {
                        None
                    }
                } else if !self.on_relays && !mesh_ready {
                    Some(ChatErrorV::NoRealNode)
                } else {
                    None
                },
            },
        }
    }

    /// A download begun: a copy of the seat's own file, or a fetch over the
    /// relays or from the member that shared it.
    pub open spec fn downloading(self, id: Seq<u8>, dest: Option<Seq<char>>) -> ChatV {
        let m = self.message_at(id)->0;
        let f = m.file->0;
        let target = TargetV { id, name: f.name, size: f.size, checksum: f.checksum };
        let begun = if m.from == self.me {
            self.doing(
                ChatEffectV::LocalCopy { source: path_of(self.share_paths, id)->0, target, dest },
            )
        } else if self.on_relays {
            self.doing(ChatEffectV::RelayFetch { target, dest })
        } else {
            self.doing(ChatEffectV::PeerFetch { target, dest })
        };
        begun.phase_set(id, PhaseV::Requested)
    }

    /// The verdict on sharing a file. `has_name` says whether the path names a
    /// file, `size` how large it is, where that is known.
    pub open spec fn share_refusal(
        self,
        closed: Option<ChatErrorV>,
        path: Seq<char>,
        has_name: bool,
        size: Option<u64>,
    ) -> Option<ChatErrorV> {
        if closed is Some {
            closed
        } else if trimmed(path).len() == 0 {
            Some(ChatErrorV::EmptyPath)
        } else if !has_name {
            Some(ChatErrorV::NoFileName { path: trimmed(path) })
        } else if self.file_cap == 0 {
            Some(ChatErrorV::SharingOff)
        } else if self.on_relays && size is Some && size->0 > self.file_cap {
            Some(ChatErrorV::OverCap { size: size->0, cap: self.file_cap })
        } else {
            None
        }
    }

    /// A failed share announced.
    pub open spec fn share_failed(self, name: Seq<char>, reason: Seq<char>) -> ChatV {
        (ChatV { notice: "share-failed:"@ + name + ":"@ + reason, ..self }).telling(
            ChatNoticeV::Session,
        )
    }
}

} // verus!
