use molt_engine::chat::{message_id, mint_message_id, parse_id, sanitize_emoji, trim, DAY_SECS};
use molt_engine::chat_model::{
    same_id, ChannelRef, ChatEffect, ChatError, ChatEvent, ChatKind, ChatMessage, ChatNotice,
    ChatState, FetchTarget, FileMeta, MessageId, ReactOp, Reaction, ReadCursor, SharePath,
    TransferPhase,
};
use molt_engine::compaction::COMPACT_EVERY_SECS;
use molt_engine::governance::new_card;
use molt_engine::model::Surface;
use molt_engine::payload::Payload;
use molt_engine::peers::LastSeen;
use molt_engine::state::{ProposalState, State};

const NOW: u64 = 1_750_000_000;

fn id(n: u8) -> MessageId {
    MessageId { bytes: [n; 16] }
}

fn hex_of(m: MessageId) -> String {
    hex::encode(m.bytes)
}

/// The seat "me" among two others, with a month of messages shown.
fn plain_chat() -> ChatState {
    let roster = vec!["me".to_string(), "peer-1".to_string(), "peer-2".to_string()];
    let mut st = ChatState::new("me".to_string(), roster);
    st.retention_days = 30;
    st.file_cap = 1_000_000;
    st.now = NOW;
    st
}

fn message(m: MessageId, from: &str, body: &str, ts: u64) -> ChatMessage {
    ChatMessage {
        id: m,
        from: from.to_string(),
        body: body.to_string(),
        ts,
        channel: ChannelRef::Group,
        kind: ChatKind::User,
        quote_id: None,
        file: None,
        deleted_by: None,
        reactions: Vec::new(),
        read_by: Vec::new(),
    }
}

fn land_chat(st: &mut ChatState, seq: u64, m: MessageId, from: &str, body: &str) {
    st.apply(&ChatEvent::Chat { msg: message(m, from, body, 100 + seq) });
}

/// A message that is still shown.
fn land_fresh(st: &mut ChatState, seq: u64, n: u8, body: &str) -> MessageId {
    st.apply(&ChatEvent::Chat { msg: message(id(n), "peer-1", body, NOW - 60 + seq) });
    id(n)
}

fn land_read(st: &mut ChatState, ids: Vec<MessageId>, by: &str) {
    st.apply(&ChatEvent::Read { ids, by: by.to_string() });
}

fn file(name: &str, size: u64) -> FileMeta {
    FileMeta {
        name: name.to_string(),
        size,
        kind: "pdf".to_string(),
        modified: 0,
        available: true,
        checksum: "c0ffee".to_string(),
    }
}

fn land_file(st: &mut ChatState, m: MessageId, from: &str, ts: u64) {
    let mut msg = message(m, from, "", ts);
    msg.file = Some(file("plan.pdf", 12));
    st.apply(&ChatEvent::Chat { msg });
}

fn read_by(st: &ChatState, m: &MessageId) -> Vec<String> {
    st.chat_by_id(m).expect("message present").1.read_by.clone()
}

fn recorded(st: &ChatState) -> Vec<&ChatEvent> {
    st.effects
        .iter()
        .filter_map(|e| match e {
            ChatEffect::Record { event } => Some(event),
            _ => None,
        })
        .collect()
}

fn told(st: &ChatState) -> Vec<&ChatNotice> {
    st.effects
        .iter()
        .filter_map(|e| match e {
            ChatEffect::Tell { notice } => Some(notice),
            _ => None,
        })
        .collect()
}

fn unread_bodies(st: &ChatState) -> Vec<String> {
    st.messages.iter().filter(|m| st.chat_msg_unread(m)).map(|m| m.body.clone()).collect()
}

#[test]
fn deleting_a_foreign_message_is_refused_and_leaves_state_untouched() {
    let mut st = plain_chat();
    land_chat(&mut st, 1, id(7), "peer-1", "not yours");
    let err = st.cmd_delete_chat(id(7)).expect_err("deleting a foreign message must be refused");
    assert_eq!(err, ChatError::NotYourMessage { id: id(7) });
    assert_eq!(st.messages[0].body, "not yours", "the body is untouched");
    assert_eq!(st.messages[0].deleted_by, None, "no tombstone was written");
    assert!(st.effects.is_empty());
}

#[test]
fn deleting_your_own_message_still_works() {
    let mut st = plain_chat();
    land_chat(&mut st, 1, id(8), "me", "mine to wipe");
    st.cmd_delete_chat(id(8)).expect("deleting an own message works");
    assert_eq!(st.messages[0].deleted_by.as_deref(), Some("me"));
    assert_eq!(st.messages[0].body, "", "the body is wiped");
    assert_eq!(
        recorded(&st),
        vec![&ChatEvent::Deleted { index: 0, id: id(8), by: "me".to_string() }]
    );
    assert_eq!(told(&st), vec![&ChatNotice::Deleted { id: id(8), by: "me".to_string() }]);
}

#[test]
fn reacting_twice_locally_still_toggles_off() {
    let mut st = plain_chat();
    land_chat(&mut st, 1, id(9), "peer-1", "toggle me");
    st.cmd_react_chat(id(9), "👍").expect("first react");
    assert_eq!(
        st.messages[0].reactions,
        vec![Reaction { emoji: "👍".to_string(), who: vec!["me".to_string()] }]
    );
    st.cmd_react_chat(id(9), "👍").expect("second react");
    assert!(
        st.messages[0].reactions.is_empty(),
        "the second click un-reacts: {:?}",
        st.messages[0].reactions
    );
    let ops: Vec<Option<ReactOp>> = recorded(&st)
        .iter()
        .map(|e| match e {
            ChatEvent::Reacted { op, .. } => *op,
            other => panic!("unexpected event {other:?}"),
        })
        .collect();
    assert_eq!(ops, vec![Some(ReactOp::Add), Some(ReactOp::Remove)]);
}

#[test]
fn a_reaction_that_says_what_it_does_may_be_heard_twice() {
    let mut st = plain_chat();
    land_chat(&mut st, 1, id(31), "peer-1", "react to me");
    let add = ChatEvent::Reacted {
        index: 0,
        id: id(31),
        emoji: "👍".to_string(),
        by: "peer-2".to_string(),
        op: Some(ReactOp::Add),
    };
    st.apply(&add);
    st.apply(&add);
    assert_eq!(st.messages[0].reactions[0].who, vec!["peer-2".to_string()]);
    // without a say it toggles
    let toggle = ChatEvent::Reacted {
        index: 0,
        id: id(31),
        emoji: "👍".to_string(),
        by: "peer-2".to_string(),
        op: None,
    };
    st.apply(&toggle);
    assert!(st.messages[0].reactions.is_empty());
    st.apply(&toggle);
    assert_eq!(st.messages[0].reactions.len(), 1);
}

#[test]
fn a_member_has_one_reaction() {
    let mut st = plain_chat();
    land_chat(&mut st, 1, id(9), "peer-1", "one each");
    st.cmd_react_chat(id(9), " 👍 ").expect("trimmed");
    st.cmd_react_chat(id(9), "🎉").expect("another");
    assert_eq!(
        st.messages[0].reactions,
        vec![Reaction { emoji: "🎉".to_string(), who: vec!["me".to_string()] }]
    );
}

#[test]
fn marking_a_channel_read_counts_and_slices_by_id() {
    let mut st = plain_chat();
    let a = land_fresh(&mut st, 1, 1, "a");
    let b = land_fresh(&mut st, 2, 2, "b");
    land_fresh(&mut st, 3, 3, "c");
    let group = ChannelRef::Group;
    assert_eq!(unread_bodies(&st), vec!["a", "b", "c"], "no cursor - everything is new");

    st.cmd_mark_channel_read(group, &hex_of(a)).expect("mark a");
    assert_eq!(unread_bodies(&st), vec!["b", "c"], "exactly the messages after the cursor");
    assert_eq!(unread_bodies(&st).len(), 2, "the channel count agrees with the slice");

    st.cmd_mark_channel_read(group, &hex_of(b)).expect("mark b");
    st.cmd_mark_channel_read(group, &hex_of(a)).expect("older is a no-op");
    assert_eq!(unread_bodies(&st), vec!["c"]);

    st.cmd_mark_channel_read(group, "").expect("mark all");
    assert!(unread_bodies(&st).is_empty());
    assert_eq!(st.cursors.len(), 1, "one cursor for the channel");
}

#[test]
fn marking_all_never_moves_a_cursor_back() {
    let mut st = plain_chat();
    land_fresh(&mut st, 1, 1, "a");
    // arrived later, but out of the window already
    let old = id(2);
    st.apply(&ChatEvent::Chat { msg: message(old, "peer-1", "b", NOW - 40 * 86_400) });
    st.cmd_mark_channel_read(ChannelRef::Group, &hex_of(old)).expect("mark b");
    assert_eq!(st.read_cursor_pos(ChannelRef::Group), Some(1));
    st.cmd_mark_channel_read(ChannelRef::Group, "").expect("mark all");
    assert_eq!(st.read_cursor_pos(ChannelRef::Group), Some(1), "the newest shown is before it");
    let fresh = land_fresh(&mut st, 3, 3, "c");
    st.cmd_mark_channel_read(ChannelRef::Group, "").expect("mark all");
    assert_eq!(st.read_cursor_pos(ChannelRef::Group), Some(2));
    assert_eq!(st.cursors[0].id, hex_of(fresh));
}

#[test]
fn a_read_cursor_survives_compaction_by_id() {
    let mut st = plain_chat();
    land_fresh(&mut st, 1, 1, "a");
    let b = land_fresh(&mut st, 2, 2, "b");
    land_fresh(&mut st, 3, 3, "c");
    st.cmd_mark_channel_read(ChannelRef::Group, &hex_of(b)).expect("mark b");
    let cut = st.messages[0].ts + 1;
    assert_eq!(st.compact_chat(cut), Some(1), "the oldest goes");
    assert_eq!(
        unread_bodies(&st),
        vec!["c"],
        "after the prune the cursor still means 'read through b'"
    );
    assert_eq!(st.read_cursor_pos(ChannelRef::Group), Some(0));
}

#[test]
fn a_mark_must_name_a_message_of_the_channel() {
    let mut st = plain_chat();
    let a = land_fresh(&mut st, 1, 1, "a");
    let patch = ChannelRef::Patch { id: 4 };
    assert_eq!(st.cmd_mark_channel_read(ChannelRef::Group, "xyz"), Err(ChatError::BadUpTo));
    assert_eq!(st.cmd_mark_channel_read(ChannelRef::Group, "00ff"), Err(ChatError::BadUpTo));
    assert_eq!(
        st.cmd_mark_channel_read(ChannelRef::Group, &hex_of(id(9))),
        Err(ChatError::UnknownUpTo)
    );
    assert_eq!(st.cmd_mark_channel_read(patch, &hex_of(a)), Err(ChatError::ForeignUpTo));
    assert!(st.cursors.is_empty() && st.effects.is_empty());
    assert_eq!(st.cmd_mark_channel_read(patch, "  "), Ok(()), "an empty channel is read");
    assert!(st.cursors.is_empty());
}

#[test]
fn saved_cursors_are_taken_over() {
    let mut st = plain_chat();
    land_fresh(&mut st, 1, 1, "a");
    land_fresh(&mut st, 2, 2, "b");
    let saved = vec![ReadCursor { channel: ChannelRef::Group, id: hex_of(id(1)) }];
    st.adopt_read_cursors(saved);
    assert_eq!(unread_bodies(&st), vec!["b"]);
    // without any, everything counts as read
    let mut st = plain_chat();
    land_fresh(&mut st, 1, 1, "a");
    land_fresh(&mut st, 2, 2, "b");
    st.adopt_read_cursors(Vec::new());
    assert!(unread_bodies(&st).is_empty());
    assert_eq!(st.cursors[0].id, hex_of(id(2)));
}

#[test]
fn an_own_message_is_not_unread() {
    let mut st = plain_chat();
    st.apply(&ChatEvent::Chat { msg: message(id(1), "me", "mine", NOW) });
    assert!(unread_bodies(&st).is_empty());
}

#[test]
fn sharing_a_file_on_a_relay_republic_is_admitted() {
    let mut st = plain_chat();
    st.on_relays = true;
    st.cmd_share_file(&State::new(), "/tmp/x.pdf", ChannelRef::Group, true, None)
        .expect("the share is admitted — the hash task reports any IO truth");
    assert_eq!(
        st.effects,
        vec![ChatEffect::HashShare {
            path: "/tmp/x.pdf".to_string(),
            channel: ChannelRef::Group
        }]
    );
}

#[test]
fn a_share_that_nobody_could_download_is_refused() {
    let mut st = plain_chat();
    let g = State::new();
    let group = ChannelRef::Group;
    assert_eq!(st.cmd_share_file(&g, "  ", group, false, None), Err(ChatError::EmptyPath));
    assert_eq!(
        st.cmd_share_file(&g, " /tmp/.. ", group, false, None),
        Err(ChatError::NoFileName { path: "/tmp/..".to_string() })
    );
    st.on_relays = true;
    assert_eq!(
        st.cmd_share_file(&g, "/tmp/x", group, true, Some(1_000_001)),
        Err(ChatError::OverCap { size: 1_000_001, cap: 1_000_000 })
    );
    assert_eq!(st.cmd_share_file(&g, "/tmp/x", group, true, Some(1_000_000)), Ok(()));
    st.on_relays = false;
    assert_eq!(st.cmd_share_file(&g, "/tmp/x", group, true, Some(1_000_001)), Ok(()));
    st.file_cap = 0;
    assert_eq!(st.cmd_share_file(&g, "/tmp/x", group, true, None), Err(ChatError::SharingOff));
}

#[test]
fn the_refusals_of_the_chat_in_words() {
    let words = |e: ChatError| e.reason();
    assert_eq!(
        words(ChatError::NoRandom { why: "none".to_string() }).as_deref(),
        Some("os rng unavailable: none")
    );
    assert_eq!(words(ChatError::EmptyPath).as_deref(), Some("the file path must not be empty"));
    assert_eq!(
        words(ChatError::NoFileName { path: "a\"b/..".to_string() }).as_deref(),
        Some("\"a\\\"b/..\" has no file name component")
    );
    assert_eq!(
        words(ChatError::SharingOff).as_deref(),
        Some("file sharing is off (file_cap_bytes = 0)")
    );
    assert_eq!(
        words(ChatError::OverCap { size: 120, cap: 7 }).as_deref(),
        Some("file is 120 bytes — the share cap is 7")
    );
    assert_eq!(
        words(ChatError::AlreadyDownloading).as_deref(),
        Some("this share is already downloading")
    );
    assert_eq!(
        words(ChatError::UnknownSource).as_deref(),
        Some("this node no longer knows the shared file's local path")
    );
    assert_eq!(
        words(ChatError::NoRealNode).as_deref(),
        Some("this workspace's members are simulated — no real node holds this file")
    );
    assert_eq!(
        words(ChatError::BadEmoji).as_deref(),
        Some("the reaction must be a short emoji")
    );
    assert_eq!(
        words(ChatError::Tombstone).as_deref(),
        Some("the message was deleted — a tombstone takes no reactions")
    );
    assert_eq!(words(ChatError::BadUpTo).as_deref(), Some("up_to must be a 32-hex message id"));
    assert_eq!(words(ChatError::UnknownUpTo).as_deref(), Some("up_to names no known message"));
    assert_eq!(
        words(ChatError::ForeignUpTo).as_deref(),
        Some("up_to is not a message of this channel")
    );
    assert_eq!(words(ChatError::NoFile { id: id(1) }), None);
}

#[test]
fn a_hashed_file_is_posted_and_its_path_kept() {
    let mut st = plain_chat();
    st.cmd_net_file_shared(file("plan.pdf", 12), "/tmp/plan.pdf".to_string(), ChannelRef::Group)
        .expect("posted");
    let msg = &st.messages[0];
    assert_eq!(msg.from, "me");
    let meta = msg.file.as_ref().expect("file");
    assert_eq!((meta.modified, meta.available), (NOW, true), "an unknown time becomes now");
    assert_eq!(
        st.share_paths,
        vec![SharePath { id: msg.id, path: "/tmp/plan.pdf".to_string() }]
    );
    assert!(matches!(
        told(&st)[0],
        ChatNotice::Chat { body, .. } if body == "📎 plan.pdf"
    ));
    assert!(st.effects.contains(&ChatEffect::SavePrefs));
}

#[test]
fn a_failed_share_shows_why() {
    let mut st = plain_chat();
    st.cmd_net_file_share_failed("plan.pdf", "gone");
    assert_eq!(st.notice, "share-failed:plan.pdf:gone");
    assert_eq!(told(&st), vec![&ChatNotice::Session]);
}

#[test]
fn a_download_is_fetched_where_the_file_is() {
    let mut st = plain_chat();
    land_file(&mut st, id(1), "peer-1", NOW);
    let target = FetchTarget {
        id: id(1),
        name: "plan.pdf".to_string(),
        size: 12,
        checksum: "c0ffee".to_string(),
    };
    assert_eq!(st.cmd_download_file(id(1), None, false), Err(ChatError::NoRealNode));
    assert_eq!(st.cmd_download_file(id(1), None, true), Ok(()));
    assert_eq!(st.effects[0], ChatEffect::PeerFetch { target: target.clone(), dest: None });
    assert_eq!(st.downloads[0].phase, "requested");
    assert_eq!(st.cmd_download_file(id(1), None, true), Err(ChatError::AlreadyDownloading));
    st.set_download_phase(id(1), TransferPhase::Progress { percent: 40 });
    assert_eq!((st.downloads[0].phase.as_str(), st.downloads[0].percent), ("transferring", 40));
    assert_eq!(st.cmd_download_file(id(1), None, true), Err(ChatError::AlreadyDownloading));
    st.set_download_phase(id(1), TransferPhase::Done { path: "/tmp/plan.pdf".to_string() });
    assert_eq!((st.downloads[0].phase.as_str(), st.downloads[0].percent), ("done", 100));
    st.on_relays = true;
    assert_eq!(st.cmd_download_file(id(1), Some("/x".to_string()), false), Ok(()));
    assert!(st.effects.contains(&ChatEffect::RelayFetch {
        target: target.clone(),
        dest: Some("/x".to_string())
    }));
    st.set_download_phase(id(1), TransferPhase::Failed { reason: "lost".to_string() });
    assert_eq!((st.downloads[0].phase.as_str(), st.downloads[0].error.as_str()), ("failed", "lost"));
    assert_eq!(st.downloads.len(), 1);
}

#[test]
fn an_own_file_is_copied() {
    let mut st = plain_chat();
    land_file(&mut st, id(1), "me", NOW);
    assert_eq!(st.cmd_download_file(id(1), None, true), Err(ChatError::UnknownSource));
    st.share_paths.push(SharePath { id: id(1), path: "/tmp/plan.pdf".to_string() });
    assert_eq!(st.cmd_download_file(id(1), None, true), Ok(()));
    assert!(matches!(
        &st.effects[0],
        ChatEffect::LocalCopy { source, .. } if source == "/tmp/plan.pdf"
    ));
}

#[test]
fn what_cannot_be_downloaded_is_refused() {
    let mut st = plain_chat();
    assert_eq!(
        st.cmd_download_file(id(1), None, true),
        Err(ChatError::UnknownMessage { id: id(1) })
    );
    land_chat(&mut st, 1, id(1), "peer-1", "text");
    assert_eq!(st.cmd_download_file(id(1), None, true), Err(ChatError::NoFile { id: id(1) }));
    land_file(&mut st, id(2), "peer-1", NOW - 30 * DAY_SECS - 1);
    assert_eq!(st.cmd_download_file(id(2), None, true), Err(ChatError::FileExpired { id: id(2) }));
    land_file(&mut st, id(3), "peer-1", NOW - 30 * DAY_SECS);
    assert_eq!(st.cmd_download_file(id(3), None, true), Ok(()), "the window's edge is inside");
    st.apply(&ChatEvent::FileRemoved { index: 2, id: id(3), by: "peer-1".to_string() });
    assert_eq!(
        st.cmd_download_file(id(3), None, true),
        Err(ChatError::FileUnavailable { id: id(3) })
    );
}

#[test]
fn only_an_own_file_is_removed() {
    let mut st = plain_chat();
    land_file(&mut st, id(1), "peer-1", NOW);
    land_file(&mut st, id(2), "me", NOW);
    land_chat(&mut st, 3, id(3), "me", "text");
    assert_eq!(st.cmd_remove_file(id(9)), Err(ChatError::UnknownMessage { id: id(9) }));
    assert_eq!(st.cmd_remove_file(id(3)), Err(ChatError::NoFile { id: id(3) }));
    assert_eq!(st.cmd_remove_file(id(1)), Err(ChatError::NotYourFile { id: id(1) }));
    st.share_paths.push(SharePath { id: id(2), path: "/tmp/plan.pdf".to_string() });
    assert_eq!(st.cmd_remove_file(id(2)), Ok(()));
    assert!(!st.messages[1].file.as_ref().expect("file").available);
    assert!(st.share_paths.is_empty(), "its path is forgotten");
    assert_eq!(st.cmd_remove_file(id(2)), Err(ChatError::FileUnavailable { id: id(2) }));
}

#[test]
fn mark_read_records_me_once_and_skips_own_and_unknown() {
    let mut st = plain_chat();
    let peer = id(21);
    land_chat(&mut st, 1, peer, "peer-1", "read me");
    let mine = id(22);
    land_chat(&mut st, 2, mine, "me", "my own");

    st.cmd_mark_read(&vec![peer, mine, id(99)]);
    assert_eq!(read_by(&st, &peer), vec!["me".to_string()]);
    assert!(read_by(&st, &mine).is_empty(), "an own message is never self-receipted");
    assert_eq!(
        recorded(&st),
        vec![&ChatEvent::Read { ids: vec![peer], by: "me".to_string() }]
    );

    st.cmd_mark_read(&vec![peer]);
    assert_eq!(read_by(&st, &peer), vec!["me".to_string()], "idempotent");
    assert_eq!(recorded(&st).len(), 1, "and nothing is sent again");
}

#[test]
fn a_chat_read_state_receipts_what_it_returns() {
    let mut st = plain_chat();
    let peer = id(25);
    land_chat(&mut st, 1, peer, "peer-1", "hello");
    st.receipt_returned_chat(Surface::Chat, &vec![hex_of(peer), "no id".to_string()]);
    assert_eq!(read_by(&st, &peer), vec!["me".to_string()]);

    let m2 = id(26);
    land_chat(&mut st, 2, m2, "peer-1", "later");
    st.receipt_returned_chat(Surface::Organization, &vec![hex_of(m2)]);
    assert!(read_by(&st, &m2).is_empty(), "only a chat read receipts");
}

#[test]
fn mark_read_is_a_noop_while_disabled() {
    let mut st = plain_chat();
    st.read_receipts = false;
    let peer = id(23);
    land_chat(&mut st, 1, peer, "peer-1", "read me");
    st.cmd_mark_read(&vec![peer]);
    assert!(read_by(&st, &peer).is_empty(), "disabled: no receipt");
}

#[test]
fn read_by_converges_commutes_with_delete_and_ignores_the_author() {
    let mut st = plain_chat();
    let m = id(24);
    land_chat(&mut st, 1, m, "peer-1", "the message");

    land_read(&mut st, vec![m], "peer-1");
    assert!(read_by(&st, &m).is_empty());

    land_read(&mut st, vec![m], "peer-2");
    land_read(&mut st, vec![m], "peer-2");
    assert_eq!(read_by(&st, &m), vec!["peer-2".to_string()]);

    let index = st.chat_by_id(&m).expect("msg").0;
    st.apply(&ChatEvent::Deleted { index, id: m, by: "peer-1".to_string() });
    assert!(read_by(&st, &m).is_empty(), "a tombstone carries no receipts");

    land_read(&mut st, vec![m], "peer-2");
    assert!(read_by(&st, &m).is_empty());
}

#[test]
fn a_decided_vote_closes_its_discussion() {
    let mut st = plain_chat();
    let mut g = State::new();
    let mut card = new_card(
        Surface::Organization,
        Payload::Null,
        ProposalState::Proposed,
        "petra".to_string(),
    );
    g.proposals.insert(4, card.clone());
    let patch = ChannelRef::Patch { id: 4 };
    assert_eq!(st.cmd_chat(&g, "open".to_string(), None, patch), Ok(()));
    card.state = ProposalState::Applied;
    g.proposals.insert(4, card);
    let closed = ChatError::DiscussionClosed { patch: 4, state: ProposalState::Applied };
    assert_eq!(st.cmd_chat(&g, "late".to_string(), None, patch), Err(closed.clone()));
    assert_eq!(st.cmd_share_file(&g, "/tmp/x", patch, true, None), Err(closed));
    assert_eq!(st.messages.len(), 1);
    assert_eq!(st.cmd_chat(&g, "hi".to_string(), None, ChannelRef::Group), Ok(()));
    assert_eq!(st.cmd_chat(&g, "?".to_string(), None, ChannelRef::Patch { id: 77 }), Ok(()));
    assert_eq!(st.messages.len(), 3);
}

#[test]
fn a_post_is_recorded_and_told() {
    let mut st = plain_chat();
    let first = st
        .post_message("me".to_string(), "one".to_string(), None, ChannelRef::Group)
        .expect("posted");
    let second = st
        .post_message_with_kind(
            "me".to_string(),
            "two".to_string(),
            Some(first),
            ChannelRef::Group,
            ChatKind::System,
        )
        .expect("posted");
    assert_ne!(first, second, "ids are minted");
    assert_eq!(st.messages[1].quote_id, Some(first));
    assert_eq!(st.messages[1].kind, ChatKind::System);
    assert_eq!(st.messages[1].ts, NOW);
    st.post_minted(
        id(1),
        "me".to_string(),
        "three".to_string(),
        Some(id(77)),
        ChannelRef::Group,
        ChatKind::User,
    );
    assert_eq!(st.messages[2].quote_id, None, "an unknown quote is dropped");
    assert_eq!(recorded(&st).len(), 3);
    assert_eq!(told(&st).len(), 3);
    // a message is known by its id
    st.apply(&ChatEvent::Chat { msg: message(id(1), "peer-1", "other", NOW) });
    assert_eq!(st.messages.len(), 3);
    assert_eq!(st.messages[2].body, "three");
}

#[test]
fn minted_ids_differ() {
    let a = mint_message_id().expect("random");
    let b = mint_message_id().expect("random");
    assert!(!same_id(&a, &b));
    assert_eq!(message_id(Ok([5; 16])), Ok(id(5)));
    assert_eq!(
        message_id(Err("dry".to_string())),
        Err(ChatError::NoRandom { why: "dry".to_string() })
    );
}

#[test]
fn what_a_reaction_may_be() {
    let mut st = plain_chat();
    land_chat(&mut st, 1, id(1), "peer-1", "hello");
    assert_eq!(st.cmd_react_chat(id(1), "   "), Err(ChatError::BadEmoji));
    assert_eq!(st.cmd_react_chat(id(1), "abcde"), Err(ChatError::BadEmoji));
    assert_eq!(
        st.cmd_react_chat(id(2), "👍"),
        Err(ChatError::UnknownMessage { id: id(2) })
    );
    st.apply(&ChatEvent::Deleted { index: 0, id: id(1), by: "peer-1".to_string() });
    assert_eq!(st.cmd_react_chat(id(1), "👍"), Err(ChatError::Tombstone));
    assert_eq!(sanitize_emoji(" 👩‍🚀 ").as_deref(), Some("👩‍🚀"));
    assert_eq!(sanitize_emoji("abcde"), None);
    assert_eq!(trim(" \t a b \n"), "a b");
    assert_eq!(trim("\u{a0}\u{3000}"), "");
    assert_eq!(parse_id(&"0A".repeat(16)), Some(id(10)));
    assert_eq!(parse_id("0a"), None);
}

#[test]
fn the_compaction_cutoff_trails_the_read_filter_by_a_full_grace_window() {
    let st = plain_chat();
    let now = 100 * 86_400;
    let window = st.retention_days * 86_400;
    assert_eq!(st.compaction_cutoff(now), now - 2 * window);
    assert!(st.compaction_cutoff(now) < now - window, "physical deletion trails the read filter");
    // and it can never wrap into the future on a young workspace
    assert_eq!(st.compaction_cutoff(10), 0);
    let mut shown = plain_chat();
    shown.now = now;
    assert_eq!(shown.retention_cutoff(), now - window);
    assert!(shown.chat_ts_aged_out(now - window - 1) && !shown.chat_ts_aged_out(now - window));
    assert!(!shown.chat_ts_aged_out(0), "an unknown age is shown");
}

fn two_shares(from: &str) -> ChatState {
    let mut st = plain_chat();
    st.apply(&ChatEvent::Chat { msg: message(id(1), from, "ancient", 100) });
    st.apply(&ChatEvent::Chat { msg: message(id(2), from, "recent", 5_000) });
    st.share_paths.push(SharePath { id: id(1), path: "/tmp/ancient.pdf".to_string() });
    st.share_paths.push(SharePath { id: id(2), path: "/tmp/recent.pdf".to_string() });
    st
}

#[test]
fn compacting_trims_live_state_and_snapshot_together() {
    let mut st = two_shares("petra");
    let dropped = st.compact_chat(1_000).expect("something ages out");
    assert_eq!(dropped, 1);
    assert_eq!(st.messages.len(), 1, "only the survivor is left");
    assert_eq!(st.messages[0].id, id(2));
    assert_eq!(st.chat_by_id(&id(2)).expect("survivor").0, 0, "places are counted anew");
    assert!(st.chat_by_id(&id(1)).is_err());
    assert!(st.pruned, "the node is marked pruned (positions are dead)");
    assert_eq!(st.pruned_counts.len(), 1);
    assert_eq!((st.pruned_counts[0].member.as_str(), st.pruned_counts[0].count), ("petra", 1));
    assert!(
        !st.share_paths.iter().any(|s| s.id == id(1)),
        "the dropped message's share is forgotten with it"
    );
    assert!(st.share_paths.iter().any(|s| s.id == id(2)), "a live share stays");

    // a second round with nothing eligible is a no-op
    assert!(st.compact_chat(1_000).is_none());
}

#[test]
fn compaction_forgets_the_dropped_shares_in_the_prefs_sidecar() {
    let mut st = two_shares("me");
    st.stored = true;
    st.compact_chat(1_000).expect("something ages out");
    assert!(!st.share_paths.iter().any(|s| s.id == id(1)), "the dropped share is forgotten");
    assert!(st.share_paths.iter().any(|s| s.id == id(2)), "the live share stays");
    assert_eq!(st.effects, vec![ChatEffect::SavePrefs], "and the preferences are written");
    // nothing is written where no share went
    let mut st = plain_chat();
    st.apply(&ChatEvent::Chat { msg: message(id(1), "me", "ancient", 100) });
    st.compact_chat(1_000).expect("something ages out");
    assert!(st.effects.is_empty());
}

#[test]
fn only_peers_past_the_grace_stop_holding_the_log() {
    let mut st = plain_chat();
    let now = 100 * 86_400;
    let window = st.retention_days * 86_400;
    st.roster = vec!["me".to_string(), "quiet".to_string(), "gone".to_string()];
    let seen = vec![
        LastSeen { member: "me".to_string(), at: now },
        LastSeen { member: "quiet".to_string(), at: now - window },
        LastSeen { member: "gone".to_string(), at: now - 3 * window },
    ];
    let holding = st.peers_holding_the_log(now, &seen);
    assert!(holding.contains(&"quiet".to_string()), "a merely quiet peer still holds");
    assert!(!holding.contains(&"gone".to_string()), "the long-gone peer is released");
    assert!(!holding.contains(&st.me), "our own cursor never holds us back");
}

#[test]
fn the_daily_gate_holds() {
    let mut st = plain_chat();
    assert!(!st.compaction_due(COMPACT_EVERY_SECS * 5), "no workspace, no round");
    st.compacted_at = 1_000;
    assert!(!st.compaction_due(1_000 + COMPACT_EVERY_SECS - 1));
    st.stored = true;
    assert!(!st.compaction_due(1_000 + COMPACT_EVERY_SECS - 1));
    assert!(st.compaction_due(1_000 + COMPACT_EVERY_SECS));
}

#[test]
fn a_due_round_asks_for_the_log() {
    let mut st = two_shares("petra");
    st.stored = true;
    st.share_paths.clear();
    let now = 61 * 86_400;
    let seen = vec![LastSeen { member: "peer-1".to_string(), at: now }];
    st.maybe_compact(now, &seen);
    assert_eq!(st.compacted_at, now);
    assert_eq!(st.messages.len(), 0, "both are older than two windows");
    assert_eq!(
        st.effects,
        vec![
            ChatEffect::CompactLog { holding: vec!["peer-1".to_string()], wait: false },
            ChatEffect::Tell { notice: ChatNotice::Session },
        ]
    );
    st.maybe_compact(now + 1, &seen);
    assert_eq!(st.effects.len(), 2, "not again today");
}
