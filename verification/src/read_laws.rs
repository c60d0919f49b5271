//! What holds of reading a chat: receipts and cursors.

use crate::chat;
use crate::chat_commands;
use crate::chat_laws;
use crate::chat_model::{
    ChannelRef, ChatEffectV, ChatErrorV, ChatEventV, ChatKind, ChatNoticeV, ChatV, CursorV,
    MessageV,
};
use crate::identity;
use crate::post_laws;
use crate::text;
use vstd::prelude::*;

verus! {

/// A name put in is there, beside those that were.
pub proof fn lemma_insert(names: Seq<Seq<char>>, name: Seq<char>)
    ensures
        forall|x: Seq<char>| #[trigger]
            text::insert_name(names, name).contains(x) <==> (names.contains(x) || x == name),
    decreases names.len(),
{
    let out = text::insert_name(names, name);
    if names.len() == 0 {
        assert(out[0] == name);
    } else {
        let front = names.drop_last();
        let inner = text::insert_name(front, name);
        lemma_insert(front, name);
        assert forall|x: Seq<char>| #[trigger] out.contains(x) <==> (names.contains(x) || x
            == name) by {
            if names.last() == name {
                assert(names[names.len() - 1] == name);
            } else if text::before(names.last(), name) {
                assert(out[names.len() as int] == name);
                if names.contains(x) {
                    let k = choose|k: int| 0 <= k < names.len() && names[k] == x;
                    assert(out[k] == x);
                }
                if out.contains(x) {
                    let k = choose|k: int| 0 <= k < out.len() && out[k] == x;
                    if k < names.len() {
                        assert(names[k] == x);
                    }
                }
            } else {
                if out.contains(x) {
                    let k = choose|k: int| 0 <= k < out.len() && out[k] == x;
                    if k < inner.len() {
                        assert(inner[k] == x);
                        assert(inner.contains(x));
                        if x != name {
                            let j = choose|j: int| 0 <= j < front.len() && front[j] == x;
                            assert(names[j] == x);
                        }
                    } else {
                        assert(names[names.len() - 1] == x);
                    }
                }
                if names.contains(x) || x == name {
                    if x == names.last() {
                        assert(out[inner.len() as int] == x);
                    } else {
                        if names.contains(x) {
                            let j = choose|j: int| 0 <= j < names.len() && names[j] == x;
                            assert(front[j] == x);
                        }
                        assert(inner.contains(x));
                        let k = choose|k: int| 0 <= k < inner.len() && inner[k] == x;
                        assert(out[k] == x);
                    }
                }
            }
        }
    }
}

/// Can this seat receipt the message: somebody else's words that are there,
/// were not deleted, and that it has not receipted before?
pub open spec fn to_be_receipted(v: ChatV, id: Seq<u8>) -> bool {
    exists|i: int| #[trigger]
        post_laws::stands_at(v.messages, id, i) && v.messages[i].deleted_by is None
            && v.messages[i].kind == ChatKind::User && v.messages[i].from != v.me
            && !v.messages[i].read_by.contains(v.me)
}

/// A message can be receipted where it stands.
proof fn lemma_receiptable(v: ChatV, id: Seq<u8>)
    ensures
        v.receiptable(id) <==> to_be_receipted(v, id),
{
    chat::lemma_place(v.messages, id);
    if v.receiptable(id) {
        let i = chat::place_of(v.messages, id)->0 as int;
        lemma_place_first(v.messages, id);
        assert(post_laws::stands_at(v.messages, id, i));
    }
    if to_be_receipted(v, id) {
        let i = choose|i: int| #[trigger]
            post_laws::stands_at(v.messages, id, i) && v.messages[i].deleted_by is None
                && v.messages[i].kind == ChatKind::User && v.messages[i].from != v.me
                && !v.messages[i].read_by.contains(v.me);
        post_laws::lemma_stands(v.messages, id, i);
    }
}

/// The place of a message is the first under its id.
proof fn lemma_place_first(messages: Seq<MessageV>, id: Seq<u8>)
    requires
        chat::place_of(messages, id) is Some,
    ensures
        post_laws::stands_at(messages, id, chat::place_of(messages, id)->0 as int),
    decreases messages.len(),
{
    if messages[0].id != id {
        let rest = messages.skip(1);
        lemma_place_first(rest, id);
        let i = chat::place_of(rest, id)->0 as int;
        assert(rest[i] == messages[i + 1]);
        assert forall|j: int| 0 <= j < i + 1 implies (#[trigger] messages[j]).id != id by {
            if j > 0 {
                assert(rest[j - 1] == messages[j]);
            }
        }
    }
}

/// What is receipted of a list is what can be, each once.
proof fn lemma_to_receipt(v: ChatV, ids: Seq<Seq<u8>>)
    ensures
        v.to_receipt(ids).no_duplicates(),
        forall|id: Seq<u8>| #[trigger]
            v.to_receipt(ids).contains(id) <==> (ids.contains(id) && to_be_receipted(v, id)),
    decreases ids.len(),
{
    let out = v.to_receipt(ids);
    if ids.len() > 0 {
        let front = ids.drop_last();
        let top = ids.last();
        lemma_to_receipt(v, front);
        lemma_receiptable(v, top);
        let rest = v.to_receipt(front);
        assert forall|id: Seq<u8>| #[trigger] out.contains(id) <==> (ids.contains(id)
            && to_be_receipted(v, id)) by {
            if rest.contains(id) {
                let k = choose|k: int| 0 <= k < rest.len() && rest[k] == id;
                assert(out[k] == id);
                let j = choose|j: int| 0 <= j < front.len() && front[j] == id;
                assert(ids[j] == id);
            }
            if id == top {
                assert(ids[ids.len() - 1] == id);
                if !rest.contains(top) && v.receiptable(top) {
                    assert(out[rest.len() as int] == id);
                }
            }
            if out.contains(id) && id != top {
                let k = choose|k: int| 0 <= k < out.len() && out[k] == id;
                assert(rest[k] == id);
            }
            if ids.contains(id) && id != top {
                let j = choose|j: int| 0 <= j < ids.len() && ids[j] == id;
                assert(front[j] == id);
            }
        }
        assert(out.no_duplicates()) by {
            if !rest.contains(top) && v.receiptable(top) {
                assert forall|i: int, j: int| 0 <= i < j < out.len() implies out[i] != out[j] by {
                    if j == rest.len() {
                        assert(rest[i] == out[i]);
                    }
                }
            }
        }
    }
}

/// What was read is receipted: exactly the messages among those named that
/// this seat can receipt, each once, in one event under this seat's name, and
/// the same is told. Where receipts are off, or none is left, nothing is said.
pub proof fn a_receipt_covers_what_was_read(v: ChatV, ids: Seq<Seq<u8>>)
    ensures
        ({
            let w = v.receipting(ids);
            let fresh = v.to_receipt(ids);
            let says = v.read_receipts && exists|k: int|
                0 <= k < ids.len() && to_be_receipted(v, #[trigger] ids[k]);
            &&& fresh.no_duplicates()
            &&& forall|id: Seq<u8>| #[trigger]
                fresh.contains(id) <==> (ids.contains(id) && to_be_receipted(v, id))
            &&& !says ==> w == v
            &&& says ==> w.effects == v.effects.push(
                ChatEffectV::Record { event: ChatEventV::Read { ids: fresh, by: v.me } },
            ).push(ChatEffectV::Tell { notice: ChatNoticeV::Read { ids: fresh, by: v.me } })
        }),
{
    lemma_to_receipt(v, ids);
    let fresh = v.to_receipt(ids);
    if fresh.len() > 0 {
        assert(fresh.contains(fresh[0]));
        let k = choose|k: int| 0 <= k < ids.len() && ids[k] == fresh[0];
        assert(to_be_receipted(v, ids[k]));
    }
    if exists|k: int| 0 <= k < ids.len() && to_be_receipted(v, #[trigger] ids[k]) {
        let k = choose|k: int| 0 <= k < ids.len() && to_be_receipted(v, #[trigger] ids[k]);
        assert(ids.contains(ids[k]));
        assert(fresh.contains(ids[k]));
    }
    chat_laws::lemma_read_each_places(v, fresh, v.me);
}

/// Whoever has read messages is named on each of them that is somebody else's
/// and was not deleted; nothing else of any message changes.
pub proof fn a_reader_is_named_on_what_it_read(
    v: ChatV,
    ids: Seq<Seq<u8>>,
    by: Seq<char>,
    i: int,
    x: Seq<char>,
)
    requires
        chat_laws::one_place(v.messages),
        0 <= i < v.messages.len(),
    ensures
        ({
            let w = v.applied(ChatEventV::Read { ids, by });
            let before = v.messages[i];
            let now = w.messages[i];
            &&& w.messages.len() == v.messages.len()
            &&& now == MessageV { read_by: now.read_by, ..before }
            &&& now.read_by.contains(x) <==> (before.read_by.contains(x) || (x == by
                && ids.contains(before.id) && before.deleted_by is None && before.from != by))
        }),
{
    lemma_read_each(v, ids, by, i, x);
}

/// Reading several messages one by one.
proof fn lemma_read_each(v: ChatV, ids: Seq<Seq<u8>>, by: Seq<char>, i: int, x: Seq<char>)
    requires
        chat_laws::one_place(v.messages),
        0 <= i < v.messages.len(),
    ensures
        ({
            let w = v.read_each(ids, by);
            let before = v.messages[i];
            let now = w.messages[i];
            &&& w.messages.len() == v.messages.len()
            &&& now == MessageV { read_by: now.read_by, ..before }
            &&& now.read_by.contains(x) <==> (before.read_by.contains(x) || (x == by
                && ids.contains(before.id) && before.deleted_by is None && before.from != by))
        }),
    decreases ids.len(),
{
    if ids.len() > 0 {
        let front = ids.drop_last();
        let top = ids.last();
        lemma_read_each(v, front, by, i, x);
        chat_laws::lemma_read_each_places(v, front, by);
        let rest = v.read_each(front, by);
        let before = v.messages[i];
        chat_laws::lemma_same_places(rest.messages, v.messages, top);
        chat::lemma_place(rest.messages, top);
        chat_laws::lemma_found_at(v.messages, i);
        assert(ids.contains(before.id) <==> front.contains(before.id) || before.id == top) by {
            if front.contains(before.id) {
                let k = choose|k: int| 0 <= k < front.len() && front[k] == before.id;
                assert(ids[k] == before.id);
            }
            if before.id == top {
                assert(ids[ids.len() - 1] == before.id);
            }
            if ids.contains(before.id) && before.id != top {
                let k = choose|k: int| 0 <= k < ids.len() && ids[k] == before.id;
                assert(front[k] == before.id);
            }
        }
        lemma_insert(rest.messages[i].read_by, by);
        match chat::place_of(rest.messages, top) {
            Some(p) => {
                if before.id != top {
                    assert(rest.messages[p as int].id == top);
                    assert(p != i);
                }
            },
            None => {
                if before.id == top {
                    assert(chat::place_of(v.messages, top) is Some);
                }
            },
        }
    }
}

/// Marking a channel read moves that channel's cursor to the message, written
/// in hex, and no other channel's; the host is told to save it.
pub proof fn a_mark_moves_one_cursor(
    v: ChatV,
    channel: ChannelRef,
    id: Seq<u8>,
    other: ChannelRef,
)
    ensures
        ({
            let w = v.marked(channel, id);
            &&& chat::cursor_of(w.cursors, channel) == Some(identity::hex_text(id))
            &&& other != channel ==> chat::cursor_of(w.cursors, other) == chat::cursor_of(
                v.cursors,
                other,
            )
            &&& w.effects == v.effects.push(ChatEffectV::SavePrefs)
            &&& w == ChatV { cursors: w.cursors, effects: w.effects, ..v }
        }),
{
    chat_laws::lemma_cursors_with(v.cursors, channel, identity::hex_text(id));
}

/// Does the channel show the `j`-th message?
pub open spec fn shows(v: ChatV, channel: ChannelRef, j: int) -> bool {
    v.messages[j].channel == channel && !v.aged(v.messages[j].ts)
}

/// Is the `i`-th of the first `n` messages the newest that the channel shows?
pub open spec fn newest_shown(v: ChatV, channel: ChannelRef, i: int, n: int) -> bool {
    &&& 0 <= i < n
    &&& shows(v, channel, i)
    &&& forall|j: int| i < j < n ==> !#[trigger] shows(v, channel, j)
}

/// The newest shown message of a channel stands above every other that is
/// shown there.
proof fn lemma_newest(v: ChatV, channel: ChannelRef, n: int) -> (i: int)
    requires
        0 <= n <= v.messages.len(),
    ensures
        match v.newest(channel, n) {
            Some(id) => newest_shown(v, channel, i, n) && v.messages[i].id == id,
            None => forall|j: int| 0 <= j < n ==> !#[trigger] shows(v, channel, j),
        },
    decreases n,
{
    if n <= 0 {
        0
    } else if shows(v, channel, n - 1) {
        n - 1
    } else {
        lemma_newest(v, channel, n - 1)
    }
}

/// A request to mark a channel read without naming a message is about the
/// newest one that the channel shows; where it shows none, or all of it was
/// read, about nothing.
pub proof fn an_unnamed_mark_is_of_the_newest(
    v: ChatV,
    channel: ChannelRef,
    up_to: Seq<char>,
    i: int,
)
    requires
        chat_laws::one_place(v.messages),
        forall|k: int| 0 <= k < up_to.len() ==> text::is_space(#[trigger] up_to[k]),
    ensures
        newest_shown(v, channel, i, v.messages.len() as int) ==> v.mark_target(channel, up_to)
            == Ok::<Option<Seq<u8>>, ChatErrorV>(
            if v.read_to(channel) is Some && i <= v.read_to(channel)->0 {
                None
            } else {
                Some(v.messages[i].id)
            },
        ),
        (forall|j: int| 0 <= j < v.messages.len() ==> !#[trigger] shows(v, channel, j))
            ==> v.mark_target(channel, up_to) == Ok::<Option<Seq<u8>>, ChatErrorV>(None),
{
    lemma_all_space(up_to);
    let n = v.messages.len() as int;
    let k = lemma_newest(v, channel, n);
    match v.newest(channel, n) {
        Some(id) => {
            assert(shows(v, channel, k));
            if newest_shown(v, channel, i, n) {
                if i < k {
                    assert(!shows(v, channel, k));
                } else if k < i {
                    assert(!shows(v, channel, i));
                }
            }
            chat_laws::lemma_found_at(v.messages, k);
        },
        None => {
            if newest_shown(v, channel, i, n) {
                assert(!shows(v, channel, i));
            }
        },
    }
}

/// White space alone trims to nothing.
proof fn lemma_all_space(t: Seq<char>)
    requires
        forall|i: int| 0 <= i < t.len() ==> text::is_space(#[trigger] t[i]),
    ensures
        chat::trimmed(t).len() == 0,
    decreases t.len(),
{
    if t.len() > 0 {
        assert(text::is_space(t[0]));
        assert forall|i: int| 0 <= i < t.skip(1).len() implies text::is_space(
            #[trigger] t.skip(1)[i],
        ) by {
            assert(t.skip(1)[i] == t[i + 1]);
        }
        lemma_all_space(t.skip(1));
    }
}

/// A request that names a message is refused where the name is none, where the
/// message is not there and where it stands in another channel; otherwise it
/// is about that message, unless it was read already.
pub proof fn a_named_mark_is_of_that_message(
    v: ChatV,
    channel: ChannelRef,
    up_to: Seq<char>,
    id: Seq<u8>,
    i: int,
)
    requires
        chat::trimmed(up_to).len() > 0,
        chat::id_of(chat::trimmed(up_to)) == Some(id),
        post_laws::stands_at(v.messages, id, i),
    ensures
        v.messages[i].channel != channel ==> v.mark_target(channel, up_to) == Err::<
            Option<Seq<u8>>,
            ChatErrorV,
        >(ChatErrorV::ForeignUpTo),
        v.messages[i].channel == channel && v.read_to(channel) is Some && i <= v.read_to(channel)->0
            ==> v.mark_target(channel, up_to) == Ok::<Option<Seq<u8>>, ChatErrorV>(None),
        v.messages[i].channel == channel && !(v.read_to(channel) is Some && i <= v.read_to(
            channel,
        )->0) ==> v.mark_target(channel, up_to) == Ok::<Option<Seq<u8>>, ChatErrorV>(Some(id)),
{
    post_laws::lemma_stands(v.messages, id, i);
}

/// Saved cursors are taken over as they are. Without any, nothing that is
/// shown is unread: a chat does not open with its whole history unread.
pub proof fn a_chat_opens_as_it_was_left(v: ChatV, saved: Seq<CursorV>, i: int)
    requires
        chat_laws::one_place(v.messages),
        forall|k: int| 0 <= k < v.messages.len() ==> (#[trigger] v.messages[k]).id.len() == 16,
        0 <= i < v.messages.len(),
    ensures
        saved.len() > 0 ==> v.cursors_adopted(saved) == (ChatV { cursors: saved, ..v }),
        saved.len() == 0 && !v.aged(v.messages[i].ts) ==> !v.cursors_adopted(saved).unread(
            v.messages[i],
        ),
{
    let n = v.messages.len() as int;
    let m = v.messages[i];
    if saved.len() == 0 && !v.aged(m.ts) {
        lemma_all_read(v, n, i);
        let w = v.cursors_adopted(saved);
        let k = choose|k: int|
            i <= k < n && (#[trigger] v.messages[k]).channel == m.channel && chat::cursor_of(
                v.all_read(n),
                m.channel,
            ) == Some(identity::hex_text(v.messages[k].id));
        let id = v.messages[k].id;
        identity::hex_text_reads_back(id);
        chat_laws::lemma_found_at(v.messages, k);
        chat_laws::lemma_found_at(v.messages, i);
        assert(v.all_read(n).len() > 0);
        assert(w.cursors == v.all_read(n));
        assert(w.read_to(m.channel) == Some(k as nat));
    }
}

/// The cursors that mark everything read reach every shown message.
proof fn lemma_all_read(v: ChatV, n: int, i: int)
    requires
        0 <= i < n <= v.messages.len(),
        !v.aged(v.messages[i].ts),
    ensures
        exists|k: int|
            i <= k < n && (#[trigger] v.messages[k]).channel == v.messages[i].channel
                && chat::cursor_of(v.all_read(n), v.messages[i].channel) == Some(
                identity::hex_text(v.messages[k].id),
            ),
    decreases n,
{
    let channel = v.messages[i].channel;
    let top = v.messages[n - 1];
    let rest = v.all_read(n - 1);
    chat_laws::lemma_cursors_with(rest, top.channel, identity::hex_text(top.id));
    if i == n - 1 || (!v.aged(top.ts) && top.channel == channel) {
        assert(v.messages[n - 1].channel == channel);
    } else {
        lemma_all_read(v, n - 1, i);
        let k = choose|k: int|
            i <= k < n - 1 && (#[trigger] v.messages[k]).channel == channel && chat::cursor_of(
                rest,
                channel,
            ) == Some(identity::hex_text(v.messages[k].id));
        assert(v.messages[k].channel == channel);
    }
}

/// The ids that texts spell are those of the texts that spell one, in order.
pub proof fn spelled_ids_keep_their_order(texts: Seq<Seq<char>>)
    ensures
        chat_commands::ids_in(texts) == texts.filter(
            |t: Seq<char>| chat::id_of(t) is Some,
        ).map_values(|t: Seq<char>| chat::id_of(t)->0),
    decreases texts.len(),
{
    reveal(Seq::filter);
    let pass = |t: Seq<char>| chat::id_of(t) is Some;
    let f = |t: Seq<char>| chat::id_of(t)->0;
    if texts.len() > 0 {
        spelled_ids_keep_their_order(texts.drop_last());
    }
    assert(chat_commands::ids_in(texts) =~= texts.filter(pass).map_values(f));
}

/// An id that was written in hex is read back as it was, where it has its
/// sixteen bytes; a text that spells another number of bytes is no id.
pub proof fn an_id_reads_back(id: Seq<u8>)
    ensures
        id.len() == 16 ==> chat::id_of(identity::hex_text(id)) == Some(id),
        id.len() != 16 ==> chat::id_of(identity::hex_text(id)) is None,
{
    identity::hex_text_reads_back(id);
}

} // verus!
