//! The chat commands: each checks what it is asked, records an event and tells
//! the frontends.

use crate::chat::{
    add_voice, drop_download, drop_path, drop_voice, find_cursor, find_message, find_path,
    is_running, mint_message_id, parse_id, sanitize_emoji, set_cursor, trim, voices, DAY_SECS,
};
use crate::chat;
use crate::chat_model::{
    same_id, ChannelRef, ChatEffect, ChatEffectV, ChatError, ChatErrorV, ChatEvent, ChatEventV,
    ChatKind, ChatMessage, ChatNotice, ChatNoticeV, ChatState, ChatV, DownloadView, FetchTarget,
    FileMeta, MessageId, ReactOp, ReadCursor, SharePath, ShareV, TransferPhase,
};
use crate::identity::hex_encode;
use crate::model::Surface;
use crate::state::{aged_out_at, State};
use crate::text::{add_name, has_name, same_text};
use vstd::prelude::*;
use vstd::string::*;

verus! {

/// Does the list hold that id?
fn has_message(ids: &Vec<MessageId>, id: &MessageId) -> (r: bool)
    ensures
        r == ids.deep_view().contains(id.deep_view()),
{
    let ghost all = ids.deep_view();
    let mut i: usize = 0;
    while i < ids.len()
        invariant
            i <= ids.len(),
            all == ids.deep_view(),
            forall|k: int| 0 <= k < i ==> all[k] != id.deep_view(),
        decreases ids.len() - i,
    {
        assert(all[i as int] == ids@[i as int].deep_view());
        if same_id(&ids[i], id) {
            return true;
        }
        i = i + 1;
    }
    false
}

/// A message with a reaction set, removed or toggled.
fn react(msg: &ChatMessage, by: &str, emoji: &str, op: Option<ReactOp>) -> (r: ChatMessage)
    ensures
        r.deep_view() == chat::reacted(msg.deep_view(), by@, emoji@, op),
{
    let mut out = msg.clone();
    if msg.deleted_by.is_some() {
        return out;
    }
    let adds: bool = match op {
        Some(ReactOp::Add) => true,
        Some(ReactOp::Remove) => false,
        None => !voices(&msg.reactions, by, emoji),
    };
    if adds {
        let mut list = drop_voice(&msg.reactions, by, emoji, true);
        add_voice(&mut list, by, emoji);
        out.reactions = list;
    } else {
        out.reactions = drop_voice(&msg.reactions, by, emoji, false);
    }
    out
}

/// The ids that the texts spell, in order; a text that spells none is passed
/// over.
pub open spec fn ids_in(texts: Seq<Seq<char>>) -> Seq<Seq<u8>>
    decreases texts.len(),
{
    if texts.len() == 0 {
        Seq::empty()
    } else {
        match chat::id_of(texts.last()) {
            Some(id) => ids_in(texts.drop_last()).push(id),
            None => ids_in(texts.drop_last()),
        }
    }
}

/// The ids that the texts spell.
fn parse_ids(texts: &Vec<String>) -> (r: Vec<MessageId>)
    ensures
        r.deep_view() == ids_in(texts.deep_view()),
{
    let ghost all = texts.deep_view();
    let mut out: Vec<MessageId> = Vec::new();
    let mut i: usize = 0;
    assert(all.take(0) =~= Seq::empty());
    assert(out.deep_view() =~= Seq::empty());
    while i < texts.len()
        invariant
            i <= texts.len(),
            all == texts.deep_view(),
            out.deep_view() == ids_in(all.take(i as int)),
        decreases texts.len() - i,
    {
        let ghost done = out.deep_view();
        proof {
            assert(all.take(i + 1).drop_last() =~= all.take(i as int));
            assert(all.take(i + 1).last() == texts@[i as int]@);
        }
        match parse_id(texts[i].as_str()) {
            Some(id) => {
                out.push(id);
                assert(out.deep_view() =~= done.push(id.deep_view()));
            },
            None => {},
        }
        i = i + 1;
    }
    assert(all.take(i as int) =~= all);
    out
}

impl ChatV {
    /// A chat without messages.
    pub open spec fn fresh(me: Seq<char>, roster: Seq<Seq<char>>) -> ChatV {
        ChatV {
            me,
            roster,
            messages: Seq::empty(),
            cursors: Seq::empty(),
            share_paths: Seq::empty(),
            downloads: Seq::empty(),
            read_receipts: true,
            retention_days: 0,
            file_cap: 0,
            on_relays: false,
            now: 0,
            stored: false,
            compacted_at: 0,
            pruned: false,
            pruned_counts: Seq::empty(),
            notice: Seq::empty(),
            effects: Seq::empty(),
        }
    }
}

impl ChatState {
    /// A chat without messages; its policy is the host's to set.
    pub fn new(me: String, roster: Vec<String>) -> (r: ChatState)
        ensures
            r.deep_view() == ChatV::fresh(me@, roster.deep_view()),
    {
        let r = ChatState {
            me,
            roster,
            messages: Vec::new(),
            cursors: Vec::new(),
            share_paths: Vec::new(),
            downloads: Vec::new(),
            read_receipts: true,
            retention_days: 0,
            file_cap: 0,
            on_relays: false,
            now: 0,
            stored: false,
            compacted_at: 0,
            pruned: false,
            pruned_counts: Vec::new(),
            notice: String::new(),
            effects: Vec::new(),
        };
        proof {
            assert(r.messages.deep_view() =~= Seq::empty());
            assert(r.cursors.deep_view() =~= Seq::empty());
            assert(r.share_paths.deep_view() =~= Seq::empty());
            assert(r.downloads.deep_view() =~= Seq::empty());
            assert(r.pruned_counts.deep_view() =~= Seq::empty());
            assert(r.effects.deep_view() =~= Seq::empty());
            assert(r.notice@ =~= Seq::empty());
        }
        r
    }

    /// One more thing for the host to do.
    fn doing(&mut self, effect: ChatEffect)
        ensures
            final(self).deep_view() == old(self).deep_view().doing(effect.deep_view()),
    {
        let ghost start = self.effects.deep_view();
        self.effects.push(effect);
        assert(self.effects.deep_view() =~= start.push(effect.deep_view()));
    }

    /// One more thing to tell the frontends.
    fn tell(&mut self, notice: ChatNotice)
        ensures
            final(self).deep_view() == old(self).deep_view().telling(notice.deep_view()),
    {
        self.doing(ChatEffect::Tell { notice });
    }

    /// The time before which a message is not shown any more.
    pub fn retention_cutoff(&self) -> (r: u64)
        ensures
            r == self.deep_view().cutoff(),
    {
        match self.retention_days.checked_mul(DAY_SECS) {
            Some(window) => {
                if self.now >= window {
                    self.now - window
                } else {
                    0
                }
            },
            None => 0,
        }
    }

    /// Is a message of that time not shown any more?
    pub fn chat_ts_aged_out(&self, ts: u64) -> (r: bool)
        ensures
            r == self.deep_view().aged(ts),
    {
        aged_out_at(self.retention_cutoff(), ts)
    }

    /// Puts a message in the place of another.
    fn replace(&mut self, i: usize, msg: ChatMessage)
        requires
            i < old(self).messages.len(),
        ensures
            final(self).deep_view() == (ChatV {
                messages: old(self).deep_view().messages.update(i as int, msg.deep_view()),
                ..old(self).deep_view()
            }),
    {
        let ghost start = self.messages.deep_view();
        self.messages[i] = msg;
        assert(self.messages.deep_view() =~= start.update(i as int, msg.deep_view()));
    }

    /// A message and its place in the log, by its id.
    pub fn chat_by_id(&self, id: &MessageId) -> (r: Result<(u64, &ChatMessage), ChatError>)
        ensures
            match r {
                Ok((index, msg)) => {
                    &&& chat::place_of(self.deep_view().messages, id.deep_view()) == Some(
                        index as nat,
                    )
                    &&& self.deep_view().message_at(id.deep_view()) == Some(msg.deep_view())
                },
                Err(e) => {
                    &&& self.deep_view().message_at(id.deep_view()) is None
                    &&& e.deep_view() == (ChatErrorV::UnknownMessage { id: id.deep_view() })
                },
            },
    {
        match find_message(&self.messages, id) {
            Some(i) => {
                assert(self.messages.deep_view()[i as int] == self.messages@[i as int].deep_view());
                Ok((i as u64, &self.messages[i]))
            },
            None => Err(ChatError::UnknownMessage { id: *id }),
        }
    }

    /// Applies several receipts of one member.
    fn apply_read(&mut self, ids: &Vec<MessageId>, by: &String)
        ensures
            final(self).deep_view() == old(self).deep_view().read_each(ids.deep_view(), by@),
    {
        let ghost start = self.deep_view();
        let ghost all = ids.deep_view();
        let mut i: usize = 0;
        assert(all.take(0) =~= Seq::empty());
        while i < ids.len()
            invariant
                i <= ids.len(),
                start == old(self).deep_view(),
                all == ids.deep_view(),
                self.deep_view() == start.read_each(all.take(i as int), by@),
            decreases ids.len() - i,
        {
            proof {
                assert(all.take(i + 1).drop_last() =~= all.take(i as int));
                assert(all.take(i + 1).last() == ids@[i as int].deep_view());
            }
            match find_message(&self.messages, &ids[i]) {
                Some(p) => {
                    assert(self.messages.deep_view()[p as int] == self.messages@[
                        p as int
                    ].deep_view());
                    let mut msg = self.messages[p].clone();
                    if msg.deleted_by.is_none() && !same_text(msg.from.as_str(), by.as_str()) {
                        add_name(&mut msg.read_by, by);
                    }
                    self.replace(p, msg);
                },
                None => {},
            }
            i = i + 1;
        }
        assert(all.take(i as int) =~= all);
    }

    /// Applies an event: one of this seat's, or one that a member sent.
    /// What it is about need not be known.
    pub fn apply(&mut self, event: &ChatEvent)
        ensures
            final(self).deep_view() == old(self).deep_view().applied(event.deep_view()),
    {
        match event {
            ChatEvent::Chat { msg } => {
                if find_message(&self.messages, &msg.id).is_none() {
                    let ghost start = self.messages.deep_view();
                    let copy = msg.clone();
                    self.messages.push(copy);
                    assert(self.messages.deep_view() =~= start.push(copy.deep_view()));
                }
            },
            ChatEvent::Reacted { id, emoji, by, op, .. } => {
                assert(op.deep_view() == *op);
                match find_message(&self.messages, id) {
                    Some(p) => {
                        assert(self.messages.deep_view()[p as int] == self.messages@[
                            p as int
                        ].deep_view());
                        let msg = react(&self.messages[p], by.as_str(), emoji.as_str(), *op);
                        self.replace(p, msg);
                    },
                    None => {},
                }
            },
            ChatEvent::Read { ids, by } => {
                self.apply_read(ids, by);
            },
            ChatEvent::Deleted { id, by, .. } => match find_message(&self.messages, id) {
                Some(p) => {
                    assert(self.messages.deep_view()[p as int] == self.messages@[
                        p as int
                    ].deep_view());
                    let mut msg = self.messages[p].clone();
                    if same_text(msg.from.as_str(), by.as_str()) {
                        msg.body = "".to_owned();
                        msg.quote_id = None;
                        msg.file = None;
                        msg.deleted_by = Some(by.clone());
                        msg.reactions = Vec::new();
                        msg.read_by = Vec::new();
                        proof {
                            reveal_strlit("");
                            assert(msg.body@ =~= Seq::empty());
                            assert(msg.reactions.deep_view() =~= Seq::empty());
                            assert(msg.read_by.deep_view() =~= Seq::empty());
                        }
                    }
                    self.replace(p, msg);
                },
                None => {},
            },
            ChatEvent::FileRemoved { id, by, .. } => match find_message(&self.messages, id) {
                Some(p) => {
                    assert(self.messages.deep_view()[p as int] == self.messages@[
                        p as int
                    ].deep_view());
                    let mut msg = self.messages[p].clone();
                    if same_text(msg.from.as_str(), by.as_str()) {
                        match &msg.file {
                            Some(f) => {
                                let mut gone = f.clone();
                                gone.available = false;
                                msg.file = Some(gone);
                            },
                            None => {},
                        }
                    }
                    self.replace(p, msg);
                },
                None => {},
            },
        }
    }

    /// Applies an event and hands it to the log.
    pub fn record(&mut self, event: ChatEvent)
        ensures
            final(self).deep_view() == old(self).deep_view().recording(event.deep_view()),
    {
        self.apply(&event);
        self.doing(ChatEffect::Record { event });
    }

    /// Posts a message under an id that was minted for it.
    pub fn post_minted(
        &mut self,
        id: MessageId,
        from: String,
        body: String,
        quote: Option<MessageId>,
        channel: ChannelRef,
        kind: ChatKind,
    )
        ensures
            final(self).deep_view() == old(self).deep_view().posting(
                id.deep_view(),
                from@,
                body@,
                quote.deep_view(),
                channel,
                kind,
            ),
    {
        let quote_id: Option<MessageId> = match &quote {
            Some(q) => {
                if find_message(&self.messages, q).is_some() {
                    Some(*q)
                } else {
                    None
                }
            },
            None => None,
        };
        let msg = ChatMessage {
            id,
            from: from.clone(),
            body: body.clone(),
            ts: self.now,
            channel,
            kind,
            quote_id,
            file: None,
            deleted_by: None,
            reactions: Vec::new(),
            read_by: Vec::new(),
        };
        proof {
            assert(msg.reactions.deep_view() =~= Seq::empty());
            assert(msg.read_by.deep_view() =~= Seq::empty());
        }
        self.record(ChatEvent::Chat { msg });
        self.tell(ChatNotice::Chat { id, from, body, channel });
    }

    /// Posts a message; gives its minted id.
    pub fn post_message(
        &mut self,
        from: String,
        body: String,
        quote: Option<MessageId>,
        channel: ChannelRef,
    ) -> (r: Result<MessageId, ChatError>)
        ensures
            match r {
                Ok(id) => final(self).deep_view() == old(self).deep_view().posting(
                    id.deep_view(),
                    from@,
                    body@,
                    quote.deep_view(),
                    channel,
                    ChatKind::User,
                ),
                Err(e) => {
                    &&& e.deep_view() is NoRandom
                    &&& final(self).deep_view() == old(self).deep_view()
                },
            },
    {
        self.post_message_with_kind(from, body, quote, channel, ChatKind::User)
    }

    /// Posts a message of a kind; only the engine itself speaks otherwise than
    /// as a member.
    pub fn post_message_with_kind(
        &mut self,
        from: String,
        body: String,
        quote: Option<MessageId>,
        channel: ChannelRef,
        kind: ChatKind,
    ) -> (r: Result<MessageId, ChatError>)
        ensures
            match r {
                Ok(id) => final(self).deep_view() == old(self).deep_view().posting(
                    id.deep_view(),
                    from@,
                    body@,
                    quote.deep_view(),
                    channel,
                    kind,
                ),
                Err(e) => {
                    &&& e.deep_view() is NoRandom
                    &&& final(self).deep_view() == old(self).deep_view()
                },
            },
    {
        match mint_message_id() {
            Ok(id) => {
                self.post_minted(id, from, body, quote, channel, kind);
                Ok(id)
            },
            Err(e) => Err(e),
        }
    }

    /// Posts as this seat, unless the discussion is closed.
    pub fn cmd_chat(
        &mut self,
        governance: &State,
        body: String,
        quote: Option<MessageId>,
        channel: ChannelRef,
    ) -> (r: Result<(), ChatError>)
        ensures
            match governance.deep_view().closed(channel) {
                Some(why) => {
                    &&& r is Err && r->Err_0.deep_view() == why
                    &&& final(self).deep_view() == old(self).deep_view()
                },
                None => match r {
                    Ok(()) => exists|id: Seq<u8>|
                        id.len() == 16 && final(self).deep_view() == #[trigger] old(
                            self,
                        ).deep_view().posting(
                            id,
                            old(self).deep_view().me,
                            body@,
                            quote.deep_view(),
                            channel,
                            ChatKind::User,
                        ),
                    Err(e) => {
                        &&& e.deep_view() is NoRandom
                        &&& final(self).deep_view() == old(self).deep_view()
                    },
                },
            },
    {
        match governance.ensure_channel_writable(channel) {
            Ok(()) => {},
            Err(e) => {
                return Err(e);
            },
        }
        let from = self.me.clone();
        match self.post_message(from, body, quote, channel) {
            Ok(id) => {
                assert(id.deep_view().len() == 16);
                Ok(())
            },
            Err(e) => Err(e),
        }
    }

    /// Takes over the saved cursors; without any, marks everything read.
    pub fn adopt_read_cursors(&mut self, saved: Vec<ReadCursor>)
        ensures
            final(self).deep_view() == old(self).deep_view().cursors_adopted(saved.deep_view()),
    {
        let ghost start = self.deep_view();
        if saved.len() > 0 {
            self.cursors = saved;
            return;
        }
        let mut out: Vec<ReadCursor> = Vec::new();
        let mut i: usize = 0;
        assert(out.deep_view() =~= Seq::empty());
        while i < self.messages.len()
            invariant
                i <= self.messages.len(),
                start == old(self).deep_view(),
                self.deep_view() == start,
                out.deep_view() == start.all_read(i as int),
            decreases self.messages.len() - i,
        {
            assert(start.messages[i as int] == self.messages@[i as int].deep_view());
            if !self.chat_ts_aged_out(self.messages[i].ts) {
                let key = hex_encode(&self.messages[i].id.bytes);
                set_cursor(&mut out, self.messages[i].channel, key);
            }
            i = i + 1;
        }
        let seeded = out.len() > 0;
        self.cursors = out;
        if seeded {
            self.doing(ChatEffect::SavePrefs);
        } else {
            assert(self.cursors.deep_view() =~= Seq::empty());
        }
    }

    /// Where a channel was read to, as a place in the log.
    pub fn read_cursor_pos(&self, channel: ChannelRef) -> (r: Option<usize>)
        ensures
            match r {
                Some(p) => self.deep_view().read_to(channel) == Some(p as nat),
                None => self.deep_view().read_to(channel) is None,
            },
    {
        match find_cursor(&self.cursors, channel) {
            Some(hex) => match parse_id(hex.as_str()) {
                Some(id) => find_message(&self.messages, &id),
                None => None,
            },
            None => None,
        }
    }

    /// Is a message unread?
    pub fn chat_msg_unread(&self, msg: &ChatMessage) -> (r: bool)
        ensures
            r == self.deep_view().unread(msg.deep_view()),
    {
        if same_text(msg.from.as_str(), self.me.as_str()) {
            return false;
        }
        match self.read_cursor_pos(msg.channel) {
            None => true,
            Some(c) => match find_message(&self.messages, &msg.id) {
                Some(p) => p > c,
                None => true,
            },
        }
    }

    /// The newest shown message of a channel.
    fn newest_shown(&self, channel: ChannelRef) -> (r: Option<MessageId>)
        ensures
            r.deep_view() == self.deep_view().newest(
                channel,
                self.deep_view().messages.len() as int,
            ),
    {
        let ghost v = self.deep_view();
        let mut i: usize = self.messages.len();
        while i > 0
            invariant
                i <= self.messages.len(),
                v == self.deep_view(),
                v.newest(channel, v.messages.len() as int) == v.newest(channel, i as int),
            decreases i,
        {
            assert(v.messages[i - 1] == self.messages@[i - 1].deep_view());
            let msg = &self.messages[i - 1];
            if msg.channel == channel && !self.chat_ts_aged_out(msg.ts) {
                return Some(msg.id);
            }
            i = i - 1;
        }
        None
    }

    /// Marks a channel read: through its newest message, or through the one
    /// whose id is given. What was read never becomes unread.
    pub fn cmd_mark_channel_read(&mut self, channel: ChannelRef, up_to: &str) -> (r: Result<
        (),
        ChatError,
    >)
        ensures
            match old(self).deep_view().mark_target(channel, up_to@) {
                Err(why) => {
                    &&& r is Err && r->Err_0.deep_view() == why
                    &&& final(self).deep_view() == old(self).deep_view()
                },
                Ok(None) => r is Ok && final(self).deep_view() == old(self).deep_view(),
                Ok(Some(id)) => r is Ok && final(self).deep_view() == old(
                    self,
                ).deep_view().marked(channel, id),
            },
    {
        let wanted = trim(up_to);
        let id: MessageId = if wanted.as_str().is_empty() {
            let id = match self.newest_shown(channel) {
                None => {
                    return Ok(());
                },
                Some(id) => id,
            };
            match (find_message(&self.messages, &id), self.read_cursor_pos(channel)) {
                (Some(p), Some(c)) => {
                    if p <= c {
                        return Ok(());
                    }
                },
                _ => {},
            }
            id
        } else {
            let id = match parse_id(wanted.as_str()) {
                Some(id) => id,
                None => {
                    return Err(ChatError::BadUpTo);
                },
            };
            let p: usize = match find_message(&self.messages, &id) {
                Some(p) => p,
                None => {
                    return Err(ChatError::UnknownUpTo);
                },
            };
            assert(self.messages.deep_view()[p as int] == self.messages@[p as int].deep_view());
            if self.messages[p].channel != channel {
                return Err(ChatError::ForeignUpTo);
            }
            match self.read_cursor_pos(channel) {
                Some(c) => {
                    if p <= c {
                        return Ok(());
                    }
                },
                None => {},
            }
            id
        };
        let key = hex_encode(&id.bytes);
        set_cursor(&mut self.cursors, channel, key);
        self.doing(ChatEffect::SavePrefs);
        Ok(())
    }

    /// Shares a local file: the host reads and hashes it, and the message is
    /// posted once that is done. `has_name` says whether the trimmed path
    /// names a file, `size` how large it is, where that is known.
    pub fn cmd_share_file(
        &mut self,
        governance: &State,
        path: &str,
        channel: ChannelRef,
        has_name: bool,
        size: Option<u64>,
    ) -> (r: Result<(), ChatError>)
        ensures
            match old(self).deep_view().share_refusal(
                governance.deep_view().closed(channel),
                path@,
                has_name,
                size,
            ) {
                Some(why) => {
                    &&& r is Err && r->Err_0.deep_view() == why
                    &&& final(self).deep_view() == old(self).deep_view()
                },
                None => {
                    &&& r is Ok
                    &&& final(self).deep_view() == old(self).deep_view().doing(
                        ChatEffectV::HashShare { path: chat::trimmed(path@), channel },
                    )
                },
            },
    {
        match governance.ensure_channel_writable(channel) {
            Ok(()) => {},
            Err(e) => {
                return Err(e);
            },
        }
        let path = trim(path);
        if path.as_str().is_empty() {
            return Err(ChatError::EmptyPath);
        }
        if !has_name {
            return Err(ChatError::NoFileName { path });
        }
        if self.file_cap == 0 {
            return Err(ChatError::SharingOff);
        }
        if self.on_relays {
            match size {
                Some(size) => {
                    if size > self.file_cap {
                        return Err(ChatError::OverCap { size, cap: self.file_cap });
                    }
                },
                None => {},
            }
        }
        self.doing(ChatEffect::HashShare { path, channel });
        Ok(())
    }

    /// Posts a share under an id that was minted for it, and remembers the
    /// file's path.
    pub fn share_minted(
        &mut self,
        id: MessageId,
        file: FileMeta,
        path: String,
        channel: ChannelRef,
    )
        ensures
            final(self).deep_view() == old(self).deep_view().sharing(
                id.deep_view(),
                file.deep_view(),
                path@,
                channel,
            ),
    {
        let from = self.me.clone();
        let mut meta = file.clone();
        if meta.modified == 0 {
            meta.modified = self.now;
        }
        meta.available = true;
        let msg = ChatMessage {
            id,
            from: from.clone(),
            body: "".to_owned(),
            ts: self.now,
            channel,
            kind: ChatKind::User,
            quote_id: None,
            file: Some(meta),
            deleted_by: None,
            reactions: Vec::new(),
            read_by: Vec::new(),
        };
        proof {
            reveal_strlit("");
            assert(msg.body@ =~= Seq::empty());
            assert(msg.reactions.deep_view() =~= Seq::empty());
            assert(msg.read_by.deep_view() =~= Seq::empty());
        }
        self.record(ChatEvent::Chat { msg });
        self.remember_share_path(id, path);
        let mut body = "📎 ".to_owned();
        body.append(file.name.as_str());
        self.tell(ChatNotice::Chat { id, from, body, channel });
    }

    /// The host has hashed a file that is to be shared. A vote that was
    /// decided meanwhile does not undo the share.
    pub fn cmd_net_file_shared(&mut self, file: FileMeta, path: String, channel: ChannelRef) -> (r:
        Result<(), ChatError>)
        ensures
            match r {
                Ok(()) => exists|id: Seq<u8>|
                    id.len() == 16 && final(self).deep_view() == #[trigger] old(
                        self,
                    ).deep_view().sharing(id, file.deep_view(), path@, channel),
                Err(e) => {
                    &&& e.deep_view() is NoRandom
                    &&& final(self).deep_view() == old(self).deep_view()
                },
            },
    {
        match mint_message_id() {
            Ok(id) => {
                self.share_minted(id, file, path, channel);
                Ok(())
            },
            Err(e) => Err(e),
        }
    }

    /// The host could not read a file that was to be shared.
    pub fn cmd_net_file_share_failed(&mut self, name: &str, reason: &str)
        ensures
            final(self).deep_view() == old(self).deep_view().share_failed(name@, reason@),
    {
        let mut notice = "share-failed:".to_owned();
        notice.append(name);
        notice.append(":");
        notice.append(reason);
        self.notice = notice;
        self.tell(ChatNotice::Session);
    }

    /// Downloads a shared file: a copy where it is the seat's own, and a fetch
    /// else. Progress is reported later. `mesh_ready` says whether the members
    /// are real nodes that can be reached.
    pub fn cmd_download_file(
        &mut self,
        id: MessageId,
        dest: Option<String>,
        mesh_ready: bool,
    ) -> (r: Result<(), ChatError>)
        ensures
            match old(self).deep_view().download_refusal(id.deep_view(), mesh_ready) {
                Some(why) => {
                    &&& r is Err && r->Err_0.deep_view() == why
                    &&& final(self).deep_view() == old(self).deep_view()
                },
                None => {
                    &&& r is Ok
                    &&& final(self).deep_view() == old(self).deep_view().downloading(
                        id.deep_view(),
                        dest.deep_view(),
                    )
                },
            },
    {
        let msg: ChatMessage = match self.chat_by_id(&id) {
            Ok((_, m)) => m.clone(),
            Err(e) => {
                return Err(e);
            },
        };
        let file: FileMeta = match &msg.file {
            Some(f) => f.clone(),
            None => {
                return Err(ChatError::NoFile { id });
            },
        };
        if !file.available {
            return Err(ChatError::FileUnavailable { id });
        }
        if self.chat_ts_aged_out(msg.ts) {
            return Err(ChatError::FileExpired { id });
        }
        if is_running(&self.downloads, &id) {
            return Err(ChatError::AlreadyDownloading);
        }
        let target = FetchTarget { id, name: file.name, size: file.size, checksum: file.checksum };
        if same_text(msg.from.as_str(), self.me.as_str()) {
            match find_path(&self.share_paths, &id) {
                Some(source) => {
                    self.doing(ChatEffect::LocalCopy { source, target, dest });
                },
                None => {
                    return Err(ChatError::UnknownSource);
                },
            }
        } else if self.on_relays {
            self.doing(ChatEffect::RelayFetch { target, dest });
        } else if mesh_ready {
            self.doing(ChatEffect::PeerFetch { target, dest });
        } else {
            return Err(ChatError::NoRealNode);
        }
        self.set_download_phase(id, TransferPhase::Requested);
        Ok(())
    }

    /// Removes one of the seat's shared files for everybody.
    pub fn cmd_remove_file(&mut self, id: MessageId) -> (r: Result<(), ChatError>)
        ensures
            match old(self).deep_view().remove_refusal(id.deep_view()) {
                Some(why) => {
                    &&& r is Err && r->Err_0.deep_view() == why
                    &&& final(self).deep_view() == old(self).deep_view()
                },
                None => {
                    &&& r is Ok
                    &&& final(self).deep_view() == old(self).deep_view().removing(id.deep_view())
                },
            },
    {
        let me = self.me.clone();
        let index: u64 = match self.chat_by_id(&id) {
            Ok((index, m)) => {
                match &m.file {
                    Some(f) => {
                        if !same_text(m.from.as_str(), me.as_str()) {
                            return Err(ChatError::NotYourFile { id });
                        }
                        if !f.available {
                            return Err(ChatError::FileUnavailable { id });
                        }
                    },
                    None => {
                        return Err(ChatError::NoFile { id });
                    },
                }
                index
            },
            Err(e) => {
                return Err(e);
            },
        };
        self.record_file_remove(index, id, me);
        Ok(())
    }

    /// Remembers where the file of one of the seat's shares is.
    fn remember_share_path(&mut self, id: MessageId, path: String)
        ensures
            final(self).deep_view() == (ChatV {
                share_paths: chat::paths_without(
                    old(self).deep_view().share_paths,
                    id.deep_view(),
                ).push(ShareV { id: id.deep_view(), path: path@ }),
                ..old(self).deep_view()
            }).doing(ChatEffectV::SavePrefs),
    {
        let mut kept = drop_path(&self.share_paths, &id);
        let ghost start = kept.deep_view();
        let entry = SharePath { id, path };
        kept.push(entry);
        assert(kept.deep_view() =~= start.push(entry.deep_view()));
        self.share_paths = kept;
        self.doing(ChatEffect::SavePrefs);
    }

    /// Forgets where the file of a share is.
    pub fn forget_share_path(&mut self, id: &MessageId)
        ensures
            final(self).deep_view() == old(self).deep_view().path_forgotten(id.deep_view()),
    {
        if find_path(&self.share_paths, id).is_some() {
            self.share_paths = drop_path(&self.share_paths, id);
            self.doing(ChatEffect::SavePrefs);
        }
    }

    /// Notes where a download stands.
    pub fn set_download_phase(&mut self, id: MessageId, phase: TransferPhase)
        ensures
            final(self).deep_view() == old(self).deep_view().phase_set(
                id.deep_view(),
                phase.deep_view(),
            ),
    {
        let empty = "".to_owned();
        proof {
            reveal_strlit("");
            assert(empty@ =~= Seq::empty());
        }
        let entry = match &phase {
            TransferPhase::Requested => DownloadView {
                id,
                phase: "requested".to_owned(),
                percent: 0,
                path: empty.clone(),
                error: empty,
            },
            TransferPhase::Progress { percent } => DownloadView {
                id,
                phase: "transferring".to_owned(),
                percent: *percent,
                path: empty.clone(),
                error: empty,
            },
            TransferPhase::Done { path } => DownloadView {
                id,
                phase: "done".to_owned(),
                percent: 100,
                path: path.clone(),
                error: empty,
            },
            TransferPhase::Failed { reason } => DownloadView {
                id,
                phase: "failed".to_owned(),
                percent: 0,
                path: empty,
                error: reason.clone(),
            },
        };
        let mut kept = drop_download(&self.downloads, &id);
        let ghost start = kept.deep_view();
        kept.push(entry);
        assert(kept.deep_view() =~= start.push(entry.deep_view()));
        self.downloads = kept;
        self.tell(ChatNotice::FileTransfer { id, phase });
    }

    /// Reacts as this seat: the emoji it already picked is taken back, any
    /// other is set. What is recorded says which, so that hearing it twice is
    /// harmless.
    pub fn cmd_react_chat(&mut self, id: MessageId, emoji: &str) -> (r: Result<(), ChatError>)
        ensures
            match old(self).deep_view().react_refusal(id.deep_view(), emoji@) {
                Some(why) => {
                    &&& r is Err && r->Err_0.deep_view() == why
                    &&& final(self).deep_view() == old(self).deep_view()
                },
                None => {
                    &&& r is Ok
                    &&& final(self).deep_view() == old(self).deep_view().reacting(
                        id.deep_view(),
                        emoji@,
                    )
                },
            },
    {
        let emoji: String = match sanitize_emoji(emoji) {
            Some(e) => e,
            None => {
                return Err(ChatError::BadEmoji);
            },
        };
        let me = self.me.clone();
        let (index, op): (u64, ReactOp) = match self.chat_by_id(&id) {
            Ok((index, m)) => {
                if m.deleted_by.is_some() {
                    return Err(ChatError::Tombstone);
                }
                if voices(&m.reactions, me.as_str(), emoji.as_str()) {
                    (index, ReactOp::Remove)
                } else {
                    (index, ReactOp::Add)
                }
            },
            Err(e) => {
                return Err(e);
            },
        };
        self.record_react(index, id, me, emoji, Some(op));
        Ok(())
    }

    /// Tells that this seat has read these messages: the ones of others that
    /// it has not yet told of. Nothing is told where receipts are off.
    pub fn cmd_mark_read(&mut self, ids: &Vec<MessageId>)
        ensures
            final(self).deep_view() == old(self).deep_view().receipting(ids.deep_view()),
    {
        if !self.read_receipts {
            return;
        }
        let me = self.me.clone();
        let ghost v = self.deep_view();
        let ghost all = ids.deep_view();
        let mut fresh: Vec<MessageId> = Vec::new();
        let mut i: usize = 0;
        assert(all.take(0) =~= Seq::empty());
        assert(fresh.deep_view() =~= Seq::empty());
        while i < ids.len()
            invariant
                i <= ids.len(),
                v == self.deep_view(),
                v == old(self).deep_view(),
                me@ == v.me,
                all == ids.deep_view(),
                fresh.deep_view() == v.to_receipt(all.take(i as int)),
            decreases ids.len() - i,
        {
            let ghost done = fresh.deep_view();
            proof {
                assert(all.take(i + 1).drop_last() =~= all.take(i as int));
                assert(all.take(i + 1).last() == ids@[i as int].deep_view());
            }
            if !has_message(&fresh, &ids[i]) {
                match self.chat_by_id(&ids[i]) {
                    Ok((_, m)) => {
                        if m.deleted_by.is_none() && m.kind == ChatKind::User && !same_text(
                            m.from.as_str(),
                            me.as_str(),
                        ) && !has_name(&m.read_by, me.as_str()) {
                            fresh.push(ids[i]);
                            assert(fresh.deep_view() =~= done.push(ids@[i as int].deep_view()));
                        }
                    },
                    Err(_) => {},
                }
            }
            i = i + 1;
        }
        assert(all.take(i as int) =~= all);
        if fresh.len() == 0 {
            return;
        }
        self.record_read(fresh, me);
    }

    /// What was handed out was read: the messages of a chat snapshot are
    /// receipted, by the ids that it gave.
    pub fn receipt_returned_chat(&mut self, surface: Surface, ids: &Vec<String>)
        ensures
            final(self).deep_view() == if surface == Surface::Chat {
                old(self).deep_view().receipting(ids_in(ids.deep_view()))
            } else {
                old(self).deep_view()
            },
    {
        if surface != Surface::Chat {
            return;
        }
        let known = parse_ids(ids);
        self.cmd_mark_read(&known);
    }

    /// Deletes one of the seat's own messages for everybody.
    pub fn cmd_delete_chat(&mut self, id: MessageId) -> (r: Result<(), ChatError>)
        ensures
            match old(self).deep_view().delete_refusal(id.deep_view()) {
                Some(why) => {
                    &&& r is Err && r->Err_0.deep_view() == why
                    &&& final(self).deep_view() == old(self).deep_view()
                },
                None => {
                    &&& r is Ok
                    &&& final(self).deep_view() == old(self).deep_view().deleting(id.deep_view())
                },
            },
    {
        let me = self.me.clone();
        let index: u64 = match self.chat_by_id(&id) {
            Ok((index, m)) => {
                if !same_text(m.from.as_str(), me.as_str()) {
                    return Err(ChatError::NotYourMessage { id });
                }
                index
            },
            Err(e) => {
                return Err(e);
            },
        };
        self.record_delete(index, id, me);
        Ok(())
    }

    /// Records a reaction and tells of it.
    pub fn record_react(
        &mut self,
        index: u64,
        id: MessageId,
        by: String,
        emoji: String,
        op: Option<ReactOp>,
    )
        ensures
            final(self).deep_view() == old(self).deep_view().recording(
                ChatEventV::Reacted { index, id: id.deep_view(), emoji: emoji@, by: by@, op },
            ).telling(ChatNoticeV::Reacted { id: id.deep_view(), emoji: emoji@, by: by@ }),
    {
        assert(op.deep_view() == op);
        self.record(
            ChatEvent::Reacted { index, id, emoji: emoji.clone(), by: by.clone(), op },
        );
        self.tell(ChatNotice::Reacted { id, emoji, by });
    }

    /// Records receipts and tells of them.
    pub fn record_read(&mut self, ids: Vec<MessageId>, by: String)
        ensures
            final(self).deep_view() == old(self).deep_view().recording(
                ChatEventV::Read { ids: ids.deep_view(), by: by@ },
            ).telling(ChatNoticeV::Read { ids: ids.deep_view(), by: by@ }),
    {
        self.record(ChatEvent::Read { ids: ids.clone(), by: by.clone() });
        self.tell(ChatNotice::Read { ids, by });
    }

    /// Records a deletion and tells of it; the path of a share goes with it.
    pub fn record_delete(&mut self, index: u64, id: MessageId, by: String)
        ensures
            final(self).deep_view() == old(self).deep_view().recording(
                ChatEventV::Deleted { index, id: id.deep_view(), by: by@ },
            ).path_forgotten(id.deep_view()).telling(
                ChatNoticeV::Deleted { id: id.deep_view(), by: by@ },
            ),
    {
        self.record(ChatEvent::Deleted { index, id, by: by.clone() });
        self.forget_share_path(&id);
        self.tell(ChatNotice::Deleted { id, by });
    }

    /// Records that a file was removed and tells of it; its path is forgotten.
    pub fn record_file_remove(&mut self, index: u64, id: MessageId, by: String)
        ensures
            final(self).deep_view() == old(self).deep_view().recording(
                ChatEventV::FileRemoved { index, id: id.deep_view(), by: by@ },
            ).path_forgotten(id.deep_view()).telling(
                ChatNoticeV::FileRemoved { id: id.deep_view(), by: by@ },
            ),
    {
        self.record(ChatEvent::FileRemoved { index, id, by: by.clone() });
        self.forget_share_path(&id);
        self.tell(ChatNotice::FileRemoved { id, by });
    }
}

} // verus!
