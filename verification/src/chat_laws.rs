//! What holds of the chat as a whole.

use crate::chat;
use crate::chat_model::{ChannelRef, ChatEventV, ChatV, CursorV, MessageV, ReactOp, ReactionV};
use crate::identity;
use crate::text;
use crate::votes;
use vstd::prelude::*;

verus! {

/// Are the two logs of the same messages, in the same places?
pub open spec fn same_places(a: Seq<MessageV>, b: Seq<MessageV>) -> bool {
    &&& a.len() == b.len()
    &&& forall|i: int| 0 <= i < a.len() ==> (#[trigger] a[i]).id == b[i].id
}

/// Has each message one place only?
pub open spec fn one_place(messages: Seq<MessageV>) -> bool {
    forall|i: int, j: int|
        0 <= i < j < messages.len() ==> (#[trigger] messages[i]).id != (#[trigger] messages[j]).id
}

/// The place of a message goes by the ids alone.
pub proof fn lemma_same_places(a: Seq<MessageV>, b: Seq<MessageV>, id: Seq<u8>)
    requires
        same_places(a, b),
    ensures
        chat::place_of(a, id) == chat::place_of(b, id),
    decreases a.len(),
{
    if a.len() > 0 {
        assert(a[0].id == b[0].id);
        assert forall|i: int| 0 <= i < a.skip(1).len() implies (#[trigger] a.skip(1)[i]).id
            == b.skip(1)[i].id by {
            assert(a[i + 1].id == b[i + 1].id);
        }
        lemma_same_places(a.skip(1), b.skip(1), id);
    }
}

/// Where each message has one place, a message is found where it is.
pub proof fn lemma_found_at(messages: Seq<MessageV>, i: int)
    requires
        one_place(messages),
        0 <= i < messages.len(),
    ensures
        chat::place_of(messages, messages[i].id) == Some(i as nat),
    decreases messages.len(),
{
    if i > 0 {
        assert(messages[0].id != messages[i].id);
        let rest = messages.skip(1);
        assert forall|a: int, b: int| 0 <= a < b < rest.len() implies (#[trigger] rest[a]).id != (
        #[trigger] rest[b]).id by {
            assert(messages[a + 1].id != messages[b + 1].id);
        }
        lemma_found_at(rest, i - 1);
        assert(rest[i - 1] == messages[i]);
    }
}

/// A message without a place is nowhere.
proof fn lemma_nowhere(messages: Seq<MessageV>, id: Seq<u8>)
    requires
        chat::place_of(messages, id) is None,
    ensures
        forall|i: int| 0 <= i < messages.len() ==> (#[trigger] messages[i]).id != id,
    decreases messages.len(),
{
    if messages.len() > 0 {
        lemma_nowhere(messages.skip(1), id);
        assert forall|i: int| 0 <= i < messages.len() implies (#[trigger] messages[i]).id != id by {
            if i > 0 {
                assert(messages.skip(1)[i - 1].id != id);
            }
        }
    }
}

/// Putting a message of the same id in a message's place keeps all places.
proof fn lemma_replacing(v: ChatV, id: Seq<u8>, m: MessageV)
    requires
        m.id == id,
    ensures
        same_places(v.replacing(id, m).messages, v.messages),
        v.message_at(id) is Some ==> v.replacing(id, m).message_at(id) == Some(m),
        forall|x: Seq<u8>| x != id ==> #[trigger] v.replacing(id, m).message_at(x) == v.message_at(x),
{
    chat::lemma_place(v.messages, id);
    let w = v.replacing(id, m);
    assert(same_places(w.messages, v.messages));
    lemma_same_places(w.messages, v.messages, id);
    assert forall|x: Seq<u8>| x != id implies #[trigger] w.message_at(x) == v.message_at(x) by {
        lemma_same_places(w.messages, v.messages, x);
        chat::lemma_place(v.messages, x);
    }
}

/// Receipts keep all places.
pub proof fn lemma_read_each_places(v: ChatV, ids: Seq<Seq<u8>>, by: Seq<char>)
    ensures
        same_places(v.read_each(ids, by).messages, v.messages),
        v.read_each(ids, by) == (ChatV { messages: v.read_each(ids, by).messages, ..v }),
    decreases ids.len(),
{
    if ids.len() > 0 {
        lemma_read_each_places(v, ids.drop_last(), by);
        let rest = v.read_each(ids.drop_last(), by);
        match rest.message_at(ids.last()) {
            Some(m) => {
                chat::lemma_place(rest.messages, ids.last());
                lemma_replacing(rest, ids.last(), chat::seen_by(m, by));
            },
            None => {},
        }
    }
}

/// Each message has one place, whatever is heard and however often.
pub proof fn a_message_has_one_place(v: ChatV, event: ChatEventV)
    requires
        one_place(v.messages),
    ensures
        one_place(v.applied(event).messages),
{
    let w = v.applied(event);
    match event {
        ChatEventV::Chat { msg } => {
            if chat::place_of(v.messages, msg.id) is None {
                lemma_nowhere(v.messages, msg.id);
            }
        },
        ChatEventV::Reacted { id, emoji, by, op, .. } => {
            match v.message_at(id) {
                Some(m) => {
                    chat::lemma_place(v.messages, id);
                    lemma_replacing(v, id, chat::reacted(m, by, emoji, op));
                    assert(same_places(w.messages, v.messages));
                },
                None => {},
            }
        },
        ChatEventV::Read { ids, by } => {
            lemma_read_each_places(v, ids, by);
            assert(same_places(w.messages, v.messages));
        },
        ChatEventV::Deleted { id, by, .. } => {
            match v.message_at(id) {
                Some(m) => {
                    chat::lemma_place(v.messages, id);
                    lemma_replacing(v, id, chat::wiped(m, by));
                    assert(same_places(w.messages, v.messages));
                },
                None => {},
            }
        },
        ChatEventV::FileRemoved { id, by, .. } => {
            match v.message_at(id) {
                Some(m) => {
                    chat::lemma_place(v.messages, id);
                    lemma_replacing(v, id, chat::file_gone(m, by));
                    assert(same_places(w.messages, v.messages));
                },
                None => {},
            }
        },
    }
    assert forall|i: int, j: int| 0 <= i < j < w.messages.len() implies (#[trigger] w.messages[i]).id
        != (#[trigger] w.messages[j]).id by {
        if same_places(w.messages, v.messages) {
            assert(v.messages[i].id != v.messages[j].id);
        }
    }
}

/// Hearing a message again changes nothing.
pub proof fn hearing_a_message_again_changes_nothing(v: ChatV, msg: MessageV)
    ensures
        v.applied(ChatEventV::Chat { msg }).applied(ChatEventV::Chat { msg }) == v.applied(
            ChatEventV::Chat { msg },
        ),
{
    let w = v.applied(ChatEventV::Chat { msg });
    if chat::place_of(w.messages, msg.id) is None {
        lemma_nowhere(w.messages, msg.id);
        assert(w.messages[w.messages.len() - 1].id == msg.id);
    }
}

/// Taking a name out leaves every other.
pub proof fn lemma_names_without(names: Seq<Seq<char>>, name: Seq<char>)
    ensures
        forall|x: Seq<char>|
            #[trigger] votes::names_without(names, name).contains(x) <==> names.contains(x) && x
                != name,
        !names.contains(name) ==> votes::names_without(names, name) == names,
    decreases names.len(),
{
    let out = votes::names_without(names, name);
    if names.len() > 0 {
        let front = names.drop_last();
        lemma_names_without(front, name);
        assert(names =~= front.push(names.last()));
        if !names.contains(name) {
            assert forall|i: int| 0 <= i < front.len() implies front[i] != name by {
                assert(names[i] != name);
            }
            assert(names[names.len() - 1] != name);
            assert(out =~= names);
        }
        assert forall|x: Seq<char>| #[trigger] out.contains(x) <==> names.contains(x) && x
            != name by {
            let inner = votes::names_without(front, name);
            if names.contains(x) && x != name {
                let k = choose|k: int| 0 <= k < names.len() && names[k] == x;
                if k < front.len() {
                    assert(front[k] == x);
                    assert(front.contains(x));
                    assert(inner.contains(x));
                    let j = choose|j: int| 0 <= j < inner.len() && inner[j] == x;
                    assert(out[j] == x);
                } else {
                    assert(out[inner.len() as int] == x);
                }
            }
            if out.contains(x) {
                let j = choose|j: int| 0 <= j < out.len() && out[j] == x;
                if j < inner.len() {
                    assert(inner.contains(x));
                    assert(front.contains(x));
                    let k = choose|k: int| 0 <= k < front.len() && front[k] == x;
                    assert(names[k] == x);
                } else {
                    assert(names[names.len() - 1] == x);
                }
            }
        }
    }
}

/// Who is under which emoji once one more entry is there.
proof fn lemma_voice_push(list: Seq<ReactionV>, entry: ReactionV, x: Seq<char>, e: Seq<char>)
    ensures
        chat::has_voice(list.push(entry), x, e) == (chat::has_voice(list, x, e) || (entry.emoji == e
            && entry.who.contains(x))),
{
    let more = list.push(entry);
    if chat::has_voice(list, x, e) {
        let i = choose|i: int|
            0 <= i < list.len() && (#[trigger] list[i]).emoji == e && list[i].who.contains(x);
        assert(more[i] == list[i]);
    }
    if entry.emoji == e && entry.who.contains(x) {
        assert(more[list.len() as int] == entry);
    }
    if chat::has_voice(more, x, e) {
        let i = choose|i: int|
            0 <= i < more.len() && (#[trigger] more[i]).emoji == e && more[i].who.contains(x);
        if i < list.len() {
            assert(more[i] == list[i]);
        }
    }
}

/// Who is under which emoji once one more entry stands in front.
proof fn lemma_voice_front(entry: ReactionV, list: Seq<ReactionV>, x: Seq<char>, e: Seq<char>)
    ensures
        chat::has_voice(seq![entry] + list, x, e) == (chat::has_voice(list, x, e) || (entry.emoji
            == e && entry.who.contains(x))),
{
    let more = seq![entry] + list;
    if chat::has_voice(list, x, e) {
        let i = choose|i: int|
            0 <= i < list.len() && (#[trigger] list[i]).emoji == e && list[i].who.contains(x);
        assert(more[i + 1] == list[i]);
    }
    if entry.emoji == e && entry.who.contains(x) {
        assert(more[0] == entry);
    }
    if chat::has_voice(more, x, e) {
        let i = choose|i: int|
            0 <= i < more.len() && (#[trigger] more[i]).emoji == e && more[i].who.contains(x);
        if i > 0 {
            assert(more[i] == list[i - 1]);
        }
    }
}

/// Dropping a member's other reactions does just that.
proof fn lemma_voice_dropped(
    list: Seq<ReactionV>,
    by: Seq<char>,
    kept: Seq<char>,
    x: Seq<char>,
    e: Seq<char>,
)
    ensures
        chat::has_voice(chat::voice_dropped(list, by, kept), x, e) == (chat::has_voice(list, x, e)
            && (x != by || e == kept)),
    decreases list.len(),
{
    if list.len() > 0 {
        let front = list.drop_last();
        let entry = list.last();
        lemma_voice_dropped(front, by, kept, x, e);
        assert(list =~= front.push(entry));
        lemma_voice_push(front, entry, x, e);
        let rest = chat::voice_dropped(front, by, kept);
        lemma_voice_push(rest, entry, x, e);
        let who = votes::names_without(entry.who, by);
        lemma_names_without(entry.who, by);
        lemma_voice_push(rest, ReactionV { emoji: entry.emoji, who }, x, e);
    }
}

/// Taking a member from an emoji does just that.
proof fn lemma_voice_taken(
    list: Seq<ReactionV>,
    by: Seq<char>,
    emoji: Seq<char>,
    x: Seq<char>,
    e: Seq<char>,
)
    ensures
        chat::has_voice(chat::voice_taken(list, by, emoji), x, e) == (chat::has_voice(list, x, e)
            && !(x == by && e == emoji)),
    decreases list.len(),
{
    if list.len() > 0 {
        let front = list.drop_last();
        let entry = list.last();
        lemma_voice_taken(front, by, emoji, x, e);
        assert(list =~= front.push(entry));
        lemma_voice_push(front, entry, x, e);
        let rest = chat::voice_taken(front, by, emoji);
        lemma_voice_push(rest, entry, x, e);
        let who = votes::names_without(entry.who, by);
        lemma_names_without(entry.who, by);
        lemma_voice_push(rest, ReactionV { emoji: entry.emoji, who }, x, e);
    }
}

/// Putting a member under an emoji does just that.
proof fn lemma_voice_added(
    list: Seq<ReactionV>,
    by: Seq<char>,
    emoji: Seq<char>,
    x: Seq<char>,
    e: Seq<char>,
)
    ensures
        chat::has_voice(chat::voice_added(list, by, emoji), x, e) == (chat::has_voice(list, x, e)
            || (x == by && e == emoji)),
    decreases list.len(),
{
    if list.len() == 0 {
        let one = ReactionV { emoji, who: seq![by] };
        assert(chat::voice_added(list, by, emoji) =~= list.push(one));
        lemma_voice_push(list, one, x, e);
        assert(one.who[0] == by);
        assert(one.who.contains(x) <==> x == by);
    } else {
        let first = list[0];
        let rest = list.skip(1);
        assert(list =~= seq![first] + rest);
        lemma_voice_front(first, rest, x, e);
        if first.emoji == emoji {
            let who = if first.who.contains(by) {
                first.who
            } else {
                first.who.push(by)
            };
            lemma_voice_front(ReactionV { emoji, who }, rest, x, e);
            assert(who.contains(x) <==> first.who.contains(x) || x == by) by {
                if !first.who.contains(by) {
                    assert(who[first.who.len() as int] == by);
                    if first.who.contains(x) {
                        let k = choose|k: int| 0 <= k < first.who.len() && first.who[k] == x;
                        assert(who[k] == x);
                    }
                    if who.contains(x) && x != by {
                        let k = choose|k: int| 0 <= k < who.len() && who[k] == x;
                        assert(first.who[k] == x);
                    }
                }
            }
        } else {
            lemma_voice_added(rest, by, emoji, x, e);
            lemma_voice_front(first, chat::voice_added(rest, by, emoji), x, e);
        }
    }
}

/// Is each member under one emoji at most?
pub open spec fn one_voice(list: Seq<ReactionV>) -> bool {
    forall|x: Seq<char>, a: Seq<char>, b: Seq<char>|
        #[trigger] chat::has_voice(list, x, a) && #[trigger] chat::has_voice(list, x, b) ==> a == b
}

/// A member is under one emoji at most, whatever is reacted.
pub proof fn a_member_is_under_one_emoji(
    m: MessageV,
    by: Seq<char>,
    emoji: Seq<char>,
    op: Option<ReactOp>,
)
    requires
        one_voice(m.reactions),
    ensures
        one_voice(chat::reacted(m, by, emoji, op).reactions),
{
    let list = chat::reacted(m, by, emoji, op).reactions;
    let dropped = chat::voice_dropped(m.reactions, by, emoji);
    assert forall|x: Seq<char>, a: Seq<char>, b: Seq<char>|
        #[trigger] chat::has_voice(list, x, a) && #[trigger] chat::has_voice(
            list,
            x,
            b,
        ) implies a == b by {
        lemma_voice_taken(m.reactions, by, emoji, x, a);
        lemma_voice_taken(m.reactions, by, emoji, x, b);
        lemma_voice_dropped(m.reactions, by, emoji, x, a);
        lemma_voice_dropped(m.reactions, by, emoji, x, b);
        lemma_voice_added(dropped, by, emoji, x, a);
        lemma_voice_added(dropped, by, emoji, x, b);
    }
}

/// Whose voices a reaction leaves: of its author the one set or all but the
/// one taken, and of everybody else what there was.
pub proof fn lemma_reacted_voices(
    m: MessageV,
    by: Seq<char>,
    emoji: Seq<char>,
    op: Option<ReactOp>,
    x: Seq<char>,
    e: Seq<char>,
)
    requires
        m.deleted_by is None,
    ensures
        ({
            let adds = op == Some(ReactOp::Add) || (op is None && !chat::has_voice(
                m.reactions,
                by,
                emoji,
            ));
            let now = chat::has_voice(chat::reacted(m, by, emoji, op).reactions, x, e);
            let before = chat::has_voice(m.reactions, x, e);
            now == (if x != by {
                before
            } else if adds {
                e == emoji
            } else {
                before && e != emoji
            })
        }),
{
    let dropped = chat::voice_dropped(m.reactions, by, emoji);
    lemma_voice_taken(m.reactions, by, emoji, x, e);
    lemma_voice_dropped(m.reactions, by, emoji, x, e);
    lemma_voice_added(dropped, by, emoji, x, e);
}

/// Reacting turns a seat's emoji on and off: what the first time sets, the
/// second time takes back.
pub proof fn reacting_twice_toggles(v: ChatV, id: Seq<u8>, emoji: Seq<char>)
    requires
        v.react_refusal(id, emoji) is None,
    ensures
        ({
            let e = chat::emoji_of(emoji)->0;
            let once = v.reacting(id, emoji);
            let twice = once.reacting(id, emoji);
            &&& once.react_refusal(id, emoji) is None
            &&& chat::has_voice(once.message_at(id)->0.reactions, v.me, e) == !chat::has_voice(
                v.message_at(id)->0.reactions,
                v.me,
                e,
            )
            &&& chat::has_voice(twice.message_at(id)->0.reactions, v.me, e) == chat::has_voice(
                v.message_at(id)->0.reactions,
                v.me,
                e,
            )
        }),
{
    let once = v.reacting(id, emoji);
    lemma_reacting(v, id, emoji);
    lemma_reacting(once, id, emoji);
}

/// What reacting does to the message.
proof fn lemma_reacting(v: ChatV, id: Seq<u8>, emoji: Seq<char>)
    requires
        v.react_refusal(id, emoji) is None,
    ensures
        ({
            let e = chat::emoji_of(emoji)->0;
            let m = v.message_at(id)->0;
            let w = v.reacting(id, emoji);
            let op = if chat::has_voice(m.reactions, v.me, e) {
                ReactOp::Remove
            } else {
                ReactOp::Add
            };
            &&& w.me == v.me
            &&& w.react_refusal(id, emoji) is None
            &&& w.message_at(id) == Some(chat::reacted(m, v.me, e, Some(op)))
            &&& chat::has_voice(w.message_at(id)->0.reactions, v.me, e) == !chat::has_voice(
                m.reactions,
                v.me,
                e,
            )
        }),
{
    let e = chat::emoji_of(emoji)->0;
    let m = v.message_at(id)->0;
    let op = if chat::has_voice(m.reactions, v.me, e) {
        ReactOp::Remove
    } else {
        ReactOp::Add
    };
    let n = chat::reacted(m, v.me, e, Some(op));
    chat::lemma_place(v.messages, id);
    lemma_replacing(v, id, n);
    assert(v.reacting(id, emoji).messages == v.replacing(id, n).messages);
    assert(v.reacting(id, emoji).message_at(id) == v.replacing(id, n).message_at(id));
    lemma_voice_taken(m.reactions, v.me, e, v.me, e);
    lemma_voice_added(chat::voice_dropped(m.reactions, v.me, e), v.me, e, v.me, e);
}

/// Is a member under no emoji, and every entry somebody's?
pub open spec fn silent(list: Seq<ReactionV>, by: Seq<char>) -> bool {
    forall|i: int|
        0 <= i < list.len() ==> (#[trigger] list[i]).who.len() > 0 && !list[i].who.contains(by)
}

/// Where a member is under no emoji, nothing is dropped.
proof fn lemma_silent_dropped(list: Seq<ReactionV>, by: Seq<char>, kept: Seq<char>)
    requires
        forall|i: int|
            0 <= i < list.len() && (#[trigger] list[i]).emoji != kept ==> list[i].who.len() > 0
                && !list[i].who.contains(by),
    ensures
        chat::voice_dropped(list, by, kept) == list,
    decreases list.len(),
{
    if list.len() > 0 {
        let front = list.drop_last();
        assert forall|i: int|
            0 <= i < front.len() && (#[trigger] front[i]).emoji != kept implies front[i].who.len()
            > 0 && !front[i].who.contains(by) by {
            assert(list[i] == front[i]);
        }
        lemma_silent_dropped(front, by, kept);
        assert(list[list.len() - 1] == list.last());
        lemma_names_without(list.last().who, by);
        assert(list =~= front.push(list.last()));
    }
}

/// Where a member is under no emoji, nothing is taken.
proof fn lemma_silent_taken(list: Seq<ReactionV>, by: Seq<char>, emoji: Seq<char>)
    requires
        silent(list, by),
    ensures
        chat::voice_taken(list, by, emoji) == list,
    decreases list.len(),
{
    if list.len() > 0 {
        let front = list.drop_last();
        assert forall|i: int| 0 <= i < front.len() implies (#[trigger] front[i]).who.len() > 0
            && !front[i].who.contains(by) by {
            assert(list[i] == front[i]);
        }
        lemma_silent_taken(front, by, emoji);
        assert(list[list.len() - 1] == list.last());
        lemma_names_without(list.last().who, by);
        assert(list =~= front.push(list.last()));
    }
}

/// Taking from a list is taking from its front and from its rest.
proof fn lemma_taken_front(
    entry: ReactionV,
    list: Seq<ReactionV>,
    by: Seq<char>,
    emoji: Seq<char>,
)
    ensures
        chat::voice_taken(seq![entry] + list, by, emoji) == chat::voice_taken(
            seq![entry],
            by,
            emoji,
        ) + chat::voice_taken(list, by, emoji),
    decreases list.len(),
{
    let all = seq![entry] + list;
    if list.len() == 0 {
        assert(all =~= seq![entry]);
        assert(chat::voice_taken(list, by, emoji) =~= Seq::empty());
        assert(chat::voice_taken(seq![entry], by, emoji) + chat::voice_taken(list, by, emoji)
            =~= chat::voice_taken(seq![entry], by, emoji));
    } else {
        lemma_taken_front(entry, list.drop_last(), by, emoji);
        assert(all.drop_last() =~= seq![entry] + list.drop_last());
        assert(all.last() == list.last());
        let a = chat::voice_taken(seq![entry], by, emoji);
        let b = chat::voice_taken(list.drop_last(), by, emoji);
        let who = votes::names_without(list.last().who, by);
        assert((a + b).push(list.last()) =~= a + b.push(list.last()));
        assert((a + b).push(ReactionV { emoji: list.last().emoji, who }) =~= a + b.push(
            ReactionV { emoji: list.last().emoji, who },
        ));
    }
}

/// What is left of one entry.
proof fn lemma_taken_one(entry: ReactionV, by: Seq<char>, emoji: Seq<char>)
    ensures
        chat::voice_taken(seq![entry], by, emoji) == (if entry.emoji != emoji {
            seq![entry]
        } else if votes::names_without(entry.who, by).len() == 0 {
            Seq::empty()
        } else {
            seq![ReactionV { emoji: entry.emoji, who: votes::names_without(entry.who, by) }]
        }),
{
    let one = seq![entry];
    assert(one.drop_last() =~= Seq::empty());
    assert(one.last() == entry);
    assert(chat::voice_taken(Seq::empty(), by, emoji) =~= Seq::empty());
    assert(Seq::empty().push(entry) =~= one);
    assert(Seq::empty().push(
        ReactionV { emoji: entry.emoji, who: votes::names_without(entry.who, by) },
    ) =~= seq![ReactionV { emoji: entry.emoji, who: votes::names_without(entry.who, by) }]);
}

/// What was put under an emoji and taken back is as it was.
proof fn lemma_added_taken(list: Seq<ReactionV>, by: Seq<char>, emoji: Seq<char>)
    requires
        silent(list, by),
    ensures
        chat::voice_taken(chat::voice_added(list, by, emoji), by, emoji) == list,
    decreases list.len(),
{
    if list.len() == 0 {
        let one = ReactionV { emoji, who: seq![by] };
        lemma_taken_one(one, by, emoji);
        assert(one.who.drop_last() =~= Seq::empty());
        assert(votes::names_without(one.who, by) =~= Seq::empty()) by {
            assert(one.who.last() == by);
            assert(votes::names_without(Seq::empty(), by) =~= Seq::empty());
        }
        assert(list =~= Seq::empty());
    } else {
        let first = list[0];
        let rest = list.skip(1);
        assert forall|i: int| 0 <= i < rest.len() implies (#[trigger] rest[i]).who.len() > 0
            && !rest[i].who.contains(by) by {
            assert(list[i + 1] == rest[i]);
        }
        assert(list =~= seq![first] + rest);
        if first.emoji == emoji {
            let entry = ReactionV { emoji, who: first.who.push(by) };
            lemma_taken_front(entry, rest, by, emoji);
            lemma_taken_one(entry, by, emoji);
            lemma_names_without(first.who, by);
            assert(entry.who.drop_last() =~= first.who);
            lemma_silent_taken(rest, by, emoji);
        } else {
            lemma_added_taken(rest, by, emoji);
            lemma_taken_front(first, chat::voice_added(rest, by, emoji), by, emoji);
            lemma_taken_one(first, by, emoji);
        }
    }
}

/// A reaction that is taken back leaves no trace on the message.
pub proof fn a_reaction_taken_back_leaves_no_trace(v: ChatV, id: Seq<u8>, emoji: Seq<char>)
    requires
        v.react_refusal(id, emoji) is None,
        silent(v.message_at(id)->0.reactions, v.me),
    ensures
        v.reacting(id, emoji).reacting(id, emoji).message_at(id) == v.message_at(id),
{
    let e = chat::emoji_of(emoji)->0;
    let list = v.message_at(id)->0.reactions;
    let once = v.reacting(id, emoji);
    lemma_reacting(v, id, emoji);
    lemma_reacting(once, id, emoji);
    assert(!chat::has_voice(list, v.me, e));
    assert forall|i: int| 0 <= i < list.len() && (#[trigger] list[i]).emoji != e implies list[i].who.len()
        > 0 && !list[i].who.contains(v.me) by {}
    lemma_silent_dropped(list, v.me, e);
    lemma_added_taken(list, v.me, e);
}

/// A member that stands under its emoji already is not added again.
proof fn lemma_added_again(list: Seq<ReactionV>, by: Seq<char>, emoji: Seq<char>)
    ensures
        chat::voice_added(chat::voice_added(list, by, emoji), by, emoji) == chat::voice_added(
            list,
            by,
            emoji,
        ),
    decreases list.len(),
{
    let more = chat::voice_added(list, by, emoji);
    if list.len() == 0 {
        assert(seq![by][0] == by);
        assert(more.skip(1) =~= Seq::empty());
        assert(chat::voice_added(more, by, emoji) =~= more);
    } else if list[0].emoji == emoji {
        let who = more[0].who;
        if !list[0].who.contains(by) {
            assert(who[list[0].who.len() as int] == by);
        }
        assert(who.contains(by));
        assert(seq![more[0]] + more.skip(1) =~= more);
    } else {
        lemma_added_again(list.skip(1), by, emoji);
        let rest = chat::voice_added(list.skip(1), by, emoji);
        assert(more[0] == list[0]);
        assert(more.skip(1) =~= rest);
    }
}

/// What is left once a member's other reactions were dropped.
proof fn lemma_dropped_entries(list: Seq<ReactionV>, by: Seq<char>, kept: Seq<char>)
    ensures
        ({
            let out = chat::voice_dropped(list, by, kept);
            forall|i: int|
                0 <= i < out.len() && (#[trigger] out[i]).emoji != kept ==> out[i].who.len() > 0
                    && !out[i].who.contains(by)
        }),
    decreases list.len(),
{
    if list.len() > 0 {
        lemma_dropped_entries(list.drop_last(), by, kept);
        lemma_names_without(list.last().who, by);
        let rest = chat::voice_dropped(list.drop_last(), by, kept);
        let out = chat::voice_dropped(list, by, kept);
        assert forall|i: int|
            0 <= i < out.len() && (#[trigger] out[i]).emoji != kept implies out[i].who.len() > 0
            && !out[i].who.contains(by) by {
            if i < rest.len() {
                assert(out[i] == rest[i]);
            }
        }
    }
}

/// Putting a member under an emoji touches no other entry.
proof fn lemma_added_entries(list: Seq<ReactionV>, by: Seq<char>, emoji: Seq<char>)
    requires
        forall|i: int|
            0 <= i < list.len() && (#[trigger] list[i]).emoji != emoji ==> list[i].who.len() > 0
                && !list[i].who.contains(by),
    ensures
        ({
            let out = chat::voice_added(list, by, emoji);
            forall|i: int|
                0 <= i < out.len() && (#[trigger] out[i]).emoji != emoji ==> out[i].who.len() > 0
                    && !out[i].who.contains(by)
        }),
    decreases list.len(),
{
    let out = chat::voice_added(list, by, emoji);
    if list.len() > 0 {
        let rest = list.skip(1);
        assert forall|i: int|
            0 <= i < rest.len() && (#[trigger] rest[i]).emoji != emoji implies rest[i].who.len() > 0
            && !rest[i].who.contains(by) by {
            assert(list[i + 1] == rest[i]);
        }
        lemma_added_entries(rest, by, emoji);
        assert forall|i: int|
            0 <= i < out.len() && (#[trigger] out[i]).emoji != emoji implies out[i].who.len() > 0
            && !out[i].who.contains(by) by {
            if i > 0 {
                if list[0].emoji == emoji {
                    assert(out[i] == rest[i - 1]);
                } else {
                    assert(out[i] == chat::voice_added(rest, by, emoji)[i - 1]);
                }
            } else {
                assert(out[0].emoji == list[0].emoji);
            }
        }
    }
}

/// Hearing a reaction that says what it does a second time changes nothing:
/// a repeated delivery never inverts it.
pub proof fn a_repeated_reaction_changes_nothing(
    m: MessageV,
    by: Seq<char>,
    emoji: Seq<char>,
    op: ReactOp,
)
    ensures
        chat::reacted(chat::reacted(m, by, emoji, Some(op)), by, emoji, Some(op)) == chat::reacted(
            m,
            by,
            emoji,
            Some(op),
        ),
{
    let list = m.reactions;
    match op {
        ReactOp::Add => {
            let dropped = chat::voice_dropped(list, by, emoji);
            lemma_dropped_entries(list, by, emoji);
            lemma_added_entries(dropped, by, emoji);
            let more = chat::voice_added(dropped, by, emoji);
            lemma_silent_dropped(more, by, emoji);
            lemma_added_again(dropped, by, emoji);
        },
        ReactOp::Remove => {
            lemma_taken_again(list, by, emoji);
        },
    }
}

/// Taking a member twice is taking it once.
proof fn lemma_taken_again(list: Seq<ReactionV>, by: Seq<char>, emoji: Seq<char>)
    ensures
        chat::voice_taken(chat::voice_taken(list, by, emoji), by, emoji) == chat::voice_taken(
            list,
            by,
            emoji,
        ),
    decreases list.len(),
{
    if list.len() > 0 {
        let front = list.drop_last();
        lemma_taken_again(front, by, emoji);
        let rest = chat::voice_taken(front, by, emoji);
        let entry = list.last();
        let who = votes::names_without(entry.who, by);
        lemma_names_without(entry.who, by);
        lemma_names_without(who, by);
        let left = ReactionV { emoji: entry.emoji, who };
        assert(rest.push(entry).drop_last() =~= rest);
        assert(rest.push(left).drop_last() =~= rest);
    }
}

/// A receipt and a deletion may arrive in either order.
pub proof fn a_receipt_and_a_deletion_commute(m: MessageV, reader: Seq<char>)
    ensures
        chat::wiped(chat::seen_by(m, reader), m.from) == chat::seen_by(
            chat::wiped(m, m.from),
            reader,
        ),
        chat::wiped(m, m.from).read_by.len() == 0,
{
}

/// Are the readers of every message ascending?
pub open spec fn readers_ascend(messages: Seq<MessageV>) -> bool {
    forall|i: int| 0 <= i < messages.len() ==> text::ascending((#[trigger] messages[i]).read_by)
}

/// Hearing a receipt again changes nothing.
proof fn lemma_seen_again(m: MessageV, by: Seq<char>)
    requires
        text::ascending(m.read_by),
    ensures
        chat::seen_by(chat::seen_by(m, by), by) == chat::seen_by(m, by),
        text::ascending(chat::seen_by(m, by).read_by),
        m.deleted_by is None && m.from != by ==> chat::seen_by(m, by).read_by.contains(by),
{
    text::lemma_insert_name(m.read_by, by);
    text::lemma_insert_name(text::insert_name(m.read_by, by), by);
}

/// What receipts do to each message.
proof fn lemma_read_each(v: ChatV, ids: Seq<Seq<u8>>, by: Seq<char>)
    requires
        readers_ascend(v.messages),
    ensures
        readers_ascend(v.read_each(ids, by).messages),
        forall|x: Seq<u8>|
            #[trigger] v.read_each(ids, by).message_at(x) == (match v.message_at(x) {
                Some(m) => Some(
                    if ids.contains(x) {
                        chat::seen_by(m, by)
                    } else {
                        m
                    },
                ),
                None => None,
            }),
    decreases ids.len(),
{
    let w = v.read_each(ids, by);
    if ids.len() > 0 {
        let front = ids.drop_last();
        let last = ids.last();
        lemma_read_each(v, front, by);
        let rest = v.read_each(front, by);
        chat::lemma_place(rest.messages, last);
        match rest.message_at(last) {
            Some(m) => {
                let p = chat::place_of(rest.messages, last)->0 as int;
                lemma_seen_again(m, by);
                lemma_replacing(rest, last, chat::seen_by(m, by));
                assert forall|i: int| 0 <= i < w.messages.len() implies text::ascending(
                    (#[trigger] w.messages[i]).read_by,
                ) by {
                    if i != p {
                        assert(w.messages[i] == rest.messages[i]);
                    }
                }
            },
            None => {},
        }
        assert forall|x: Seq<u8>| #[trigger] w.message_at(x) == (match v.message_at(x) {
            Some(m) => Some(
                if ids.contains(x) {
                    chat::seen_by(m, by)
                } else {
                    m
                },
            ),
            None => None,
        }) by {
            assert(ids.contains(x) <==> front.contains(x) || x == last) by {
                assert(ids =~= front.push(last));
                if front.contains(x) {
                    let k = choose|k: int| 0 <= k < front.len() && front[k] == x;
                    assert(ids[k] == x);
                }
                if x == last {
                    assert(ids[ids.len() - 1] == x);
                }
                if ids.contains(x) && x != last {
                    let k = choose|k: int| 0 <= k < ids.len() && ids[k] == x;
                    assert(front[k] == x);
                }
            }
            assert(rest.message_at(x) is Some ==> v.message_at(x) is Some);
            match v.message_at(x) {
                Some(m) => {
                    chat::lemma_place(v.messages, x);
                    lemma_seen_again(m, by);
                },
                None => {},
            }
        }
    }
}

/// The receipts to send are among the ids, and each can be receipted.
proof fn lemma_to_receipt(v: ChatV, ids: Seq<Seq<u8>>)
    ensures
        forall|x: Seq<u8>|
            #[trigger] v.to_receipt(ids).contains(x) <==> ids.contains(x) && v.receiptable(x),
    decreases ids.len(),
{
    let out = v.to_receipt(ids);
    if ids.len() > 0 {
        let front = ids.drop_last();
        let last = ids.last();
        lemma_to_receipt(v, front);
        let rest = v.to_receipt(front);
        assert(ids =~= front.push(last));
        assert forall|x: Seq<u8>| #[trigger] out.contains(x) <==> ids.contains(x) && v.receiptable(
            x,
        ) by {
            if out.contains(x) {
                let k = choose|k: int| 0 <= k < out.len() && out[k] == x;
                if k < rest.len() {
                    assert(rest[k] == x);
                    assert(rest.contains(x));
                    let j = choose|j: int| 0 <= j < front.len() && front[j] == x;
                    assert(ids[j] == x);
                } else {
                    assert(x == last);
                    assert(ids[ids.len() - 1] == x);
                }
            }
            if ids.contains(x) && v.receiptable(x) {
                let k = choose|k: int| 0 <= k < ids.len() && ids[k] == x;
                if k < front.len() {
                    assert(front[k] == x);
                    assert(rest.contains(x));
                } else {
                    assert(x == last);
                }
                if rest.contains(x) {
                    let j = choose|j: int| 0 <= j < rest.len() && rest[j] == x;
                    assert(out[j] == x);
                } else {
                    assert(out[rest.len() as int] == x);
                }
            }
        }
    }
}

/// A receipt is sent once: asking again sends nothing and changes nothing.
pub proof fn a_receipt_is_sent_once(v: ChatV, ids: Seq<Seq<u8>>)
    requires
        readers_ascend(v.messages),
    ensures
        v.receipting(ids).receipting(ids) == v.receipting(ids),
{
    let fresh = v.to_receipt(ids);
    let w = v.receipting(ids);
    if v.read_receipts && fresh.len() > 0 {
        lemma_to_receipt(v, ids);
        lemma_read_each(v, fresh, v.me);
        lemma_read_each_places(v, fresh, v.me);
        let heard = v.read_each(fresh, v.me);
        assert(w.messages == heard.messages);
        lemma_to_receipt(w, ids);
        let again = w.to_receipt(ids);
        if again.len() > 0 {
            let x = again[0];
            assert(again.contains(x));
            assert(w.message_at(x) == heard.message_at(x));
            assert(w.receiptable(x));
            let m = v.message_at(x)->0;
            chat::lemma_place(v.messages, x);
            lemma_seen_again(m, v.me);
            if !fresh.contains(x) {
                assert(!v.receiptable(x));
            }
        }
    }
}

/// A seat's own message is never unread to itself.
pub proof fn an_own_message_is_never_unread(v: ChatV, m: MessageV)
    requires
        m.from == v.me,
    ensures
        !v.unread(m),
{
}

/// A cursor that was set is the one that is found, and no other moves.
pub proof fn lemma_cursors_with(cursors: Seq<CursorV>, channel: ChannelRef, id: Seq<char>)
    ensures
        chat::cursor_of(chat::cursors_with(cursors, channel, id), channel) == Some(id),
        forall|other: ChannelRef|
            other != channel ==> #[trigger] chat::cursor_of(
                chat::cursors_with(cursors, channel, id),
                other,
            ) == chat::cursor_of(cursors, other),
    decreases cursors.len(),
{
    let out = chat::cursors_with(cursors, channel, id);
    if cursors.len() == 0 {
        assert(out.skip(1) =~= cursors);
    } else if cursors[0].channel == channel {
        assert(out.skip(1) =~= cursors.skip(1));
    } else {
        lemma_cursors_with(cursors.skip(1), channel, id);
        assert(out.skip(1) =~= chat::cursors_with(cursors.skip(1), channel, id));
        assert(out[0] == cursors[0]);
    }
    assert forall|other: ChannelRef| other != channel implies #[trigger] chat::cursor_of(out, other)
        == chat::cursor_of(cursors, other) by {
        if cursors.len() == 0 {
            assert(chat::cursor_of(out.skip(1), other) is None);
        } else if cursors[0].channel != channel {
            assert(chat::cursor_of(out.skip(1), other) == chat::cursor_of(cursors.skip(1), other));
        }
    }
}

/// Is every id of the log a message id?
pub open spec fn ids_fit(messages: Seq<MessageV>) -> bool {
    forall|i: int| 0 <= i < messages.len() ==> (#[trigger] messages[i]).id.len() == 16
}

/// Marking a channel moves its cursor to that message, and no other cursor.
pub proof fn a_mark_is_what_is_read_to(v: ChatV, channel: ChannelRef, id: Seq<u8>)
    requires
        id.len() == 16,
    ensures
        v.marked(channel, id).read_to(channel) == chat::place_of(v.messages, id),
        forall|other: ChannelRef|
            other != channel ==> #[trigger] v.marked(channel, id).read_to(other) == v.read_to(
                other,
            ),
{
    identity::hex_text_reads_back(id);
    lemma_cursors_with(v.cursors, channel, identity::hex_text(id));
}

/// Is the message in that place shown in that channel?
pub open spec fn shown_in(v: ChatV, channel: ChannelRef, i: int) -> bool {
    v.messages[i].channel == channel && !v.aged(v.messages[i].ts)
}

/// What the newest shown message is.
proof fn lemma_newest(v: ChatV, channel: ChannelRef, n: int) -> (p: int)
    requires
        0 <= n <= v.messages.len(),
    ensures
        match v.newest(channel, n) {
            Some(id) => {
                &&& 0 <= p < n
                &&& v.messages[p].id == id
                &&& shown_in(v, channel, p)
                &&& forall|i: int| p < i < n ==> !#[trigger] shown_in(v, channel, i)
            },
            None => forall|i: int| 0 <= i < n ==> !#[trigger] shown_in(v, channel, i),
        },
    decreases n,
{
    if n <= 0 {
        0
    } else if shown_in(v, channel, n - 1) {
        n - 1
    } else {
        lemma_newest(v, channel, n - 1)
    }
}

/// The chat once a channel was marked read.
pub open spec fn after_mark(v: ChatV, channel: ChannelRef, up_to: Seq<char>) -> ChatV {
    match v.mark_target(channel, up_to) {
        Ok(Some(id)) => v.marked(channel, id),
        _ => v,
    }
}

/// Marking a whole channel read leaves none of its shown messages unread.
pub proof fn a_channel_marked_read_has_nothing_unread(
    v: ChatV,
    channel: ChannelRef,
    up_to: Seq<char>,
    i: int,
)
    requires
        one_place(v.messages),
        ids_fit(v.messages),
        chat::trimmed(up_to).len() == 0,
        0 <= i < v.messages.len(),
        shown_in(v, channel, i),
    ensures
        v.mark_target(channel, up_to) is Ok,
        !after_mark(v, channel, up_to).unread(v.messages[i]),
{
    let p = lemma_newest(v, channel, v.messages.len() as int);
    assert(shown_in(v, channel, i));
    assert(i <= p);
    lemma_found_at(v.messages, p);
    lemma_found_at(v.messages, i);
    a_mark_is_what_is_read_to(v, channel, v.messages[p].id);
}

/// Marking a channel read through a message leaves unread just the members'
/// messages that stand after it.
pub proof fn what_stands_after_the_mark_is_unread(
    v: ChatV,
    channel: ChannelRef,
    id: Seq<u8>,
    i: int,
)
    requires
        one_place(v.messages),
        ids_fit(v.messages),
        chat::place_of(v.messages, id) is Some,
        0 <= i < v.messages.len(),
        v.messages[i].channel == channel,
    ensures
        v.marked(channel, id).unread(v.messages[i]) <==> (v.messages[i].from != v.me && i
            > chat::place_of(v.messages, id)->0),
{
    chat::lemma_place(v.messages, id);
    assert(id.len() == 16) by {
        assert(v.messages[chat::place_of(v.messages, id)->0 as int].id.len() == 16);
    }
    lemma_found_at(v.messages, i);
    a_mark_is_what_is_read_to(v, channel, id);
}

/// A cursor only ever advances: marking a channel read, as a whole or through
/// a message, never makes what was read unread.
pub proof fn a_cursor_only_advances(v: ChatV, channel: ChannelRef, up_to: Seq<char>)
    requires
        one_place(v.messages),
        ids_fit(v.messages),
        v.read_to(channel) is Some,
    ensures
        after_mark(v, channel, up_to).read_to(channel) is Some,
        after_mark(v, channel, up_to).read_to(channel)->0 >= v.read_to(channel)->0,
{
    match v.mark_target(channel, up_to) {
        Ok(Some(id)) => {
            chat::lemma_place(v.messages, id);
            if chat::trimmed(up_to).len() == 0 {
                let p = lemma_newest(v, channel, v.messages.len() as int);
                lemma_found_at(v.messages, p);
            } else {
                assert(v.messages[chat::place_of(v.messages, id)->0 as int].id.len() == 16);
            }
            a_mark_is_what_is_read_to(v, channel, id);
        },
        _ => {},
    }
}

} // verus!
