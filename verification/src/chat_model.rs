//! What the chat is made of.

use crate::state::ProposalState;
use vstd::prelude::*;

verus! {

/// A message's id: 128 random bits.
#[derive(Debug, Clone, Copy, PartialEq, Eq)]
pub struct MessageId {
    pub bytes: [u8; 16],
}

impl DeepView for MessageId {
    type V = Seq<u8>;

    open spec fn deep_view(&self) -> Seq<u8> {
        self.bytes@
    }
}

/// Are these the same id?
pub fn same_id(a: &MessageId, b: &MessageId) -> (r: bool)
    ensures
        r == (a.deep_view() == b.deep_view()),
{
    let mut i: usize = 0;
    while i < 16
        invariant
            i <= 16,
            forall|k: int| 0 <= k < i ==> a.bytes@[k] == b.bytes@[k],
        decreases 16 - i,
    {
        if a.bytes[i] != b.bytes[i] {
            return false;
        }
        i = i + 1;
    }
    assert(a.bytes@ =~= b.bytes@);
    true
}

/// Where a message is posted.
#[derive(Debug, Clone, Copy, PartialEq, Eq, Structural)]
pub enum ChannelRef {
    /// The group's channel.
    Group,
    /// The discussion of a proposal.
    Patch {
        id: u64,
    },
}

impl DeepView for ChannelRef {
    type V = ChannelRef;

    open spec fn deep_view(&self) -> ChannelRef {
        *self
    }
}

/// Who speaks: a member, or the engine itself.
#[derive(Debug, Clone, Copy, PartialEq, Eq, Structural)]
pub enum ChatKind {
    User,
    System,
}

impl DeepView for ChatKind {
    type V = ChatKind;

    open spec fn deep_view(&self) -> ChatKind {
        *self
    }
}

/// What a reaction does: explicit, so that a repeated delivery never inverts
/// it.
#[derive(Debug, Clone, Copy, PartialEq, Eq, Structural)]
pub enum ReactOp {
    Add,
    Remove,
}

impl DeepView for ReactOp {
    type V = ReactOp;

    open spec fn deep_view(&self) -> ReactOp {
        *self
    }
}

/// What is shared of a file: never the file itself.
#[derive(Debug, PartialEq, Eq)]
pub struct FileMeta {
    pub name: String,
    pub size: u64,
    pub kind: String,
    pub modified: u64,
    /// Whether it can still be downloaded.
    pub available: bool,
    pub checksum: String,
}

/// The model of [`FileMeta`].
pub struct FileMetaV {
    pub name: Seq<char>,
    pub size: u64,
    pub kind: Seq<char>,
    pub modified: u64,
    pub available: bool,
    pub checksum: Seq<char>,
}

impl DeepView for FileMeta {
    type V = FileMetaV;

    open spec fn deep_view(&self) -> FileMetaV {
        FileMetaV {
            name: self.name@,
            size: self.size,
            kind: self.kind@,
            modified: self.modified,
            available: self.available,
            checksum: self.checksum@,
        }
    }
}

impl Clone for FileMeta {
    fn clone(&self) -> (r: Self)
        ensures
            r.deep_view() == self.deep_view(),
    {
        FileMeta {
            name: self.name.clone(),
            size: self.size,
            kind: self.kind.clone(),
            modified: self.modified,
            available: self.available,
            checksum: self.checksum.clone(),
        }
    }
}

/// An emoji and who picked it.
#[derive(Debug, PartialEq, Eq)]
pub struct Reaction {
    pub emoji: String,
    pub who: Vec<String>,
}

/// The model of [`Reaction`].
pub struct ReactionV {
    pub emoji: Seq<char>,
    pub who: Seq<Seq<char>>,
}

impl DeepView for Reaction {
    type V = ReactionV;

    open spec fn deep_view(&self) -> ReactionV {
        ReactionV {
            emoji: self.emoji@,
            who: self.who.deep_view(),
        }
    }
}

impl Clone for Reaction {
    fn clone(&self) -> (r: Self)
        ensures
            r.deep_view() == self.deep_view(),
    {
        Reaction {
            emoji: self.emoji.clone(),
            who: self.who.clone(),
        }
    }
}

/// One message.
#[derive(Debug, PartialEq, Eq)]
pub struct ChatMessage {
    pub id: MessageId,
    pub from: String,
    pub body: String,
    /// Zero where its age is not known.
    pub ts: u64,
    pub channel: ChannelRef,
    pub kind: ChatKind,
    pub quote_id: Option<MessageId>,
    pub file: Option<FileMeta>,
    /// Who deleted it; what is left is the notice.
    pub deleted_by: Option<String>,
    /// Each member under one emoji at most.
    pub reactions: Vec<Reaction>,
    /// Ascending.
    pub read_by: Vec<String>,
}

/// The model of [`ChatMessage`].
pub struct MessageV {
    pub id: Seq<u8>,
    pub from: Seq<char>,
    pub body: Seq<char>,
    pub ts: u64,
    pub channel: ChannelRef,
    pub kind: ChatKind,
    pub quote_id: Option<Seq<u8>>,
    pub file: Option<FileMetaV>,
    pub deleted_by: Option<Seq<char>>,
    pub reactions: Seq<ReactionV>,
    pub read_by: Seq<Seq<char>>,
}

impl DeepView for ChatMessage {
    type V = MessageV;

    open spec fn deep_view(&self) -> MessageV {
        MessageV {
            id: self.id.deep_view(),
            from: self.from@,
            body: self.body@,
            ts: self.ts,
            channel: self.channel,
            kind: self.kind,
            quote_id: self.quote_id.deep_view(),
            file: self.file.deep_view(),
            deleted_by: self.deleted_by.deep_view(),
            reactions: self.reactions.deep_view(),
            read_by: self.read_by.deep_view(),
        }
    }
}

impl Clone for ChatMessage {
    fn clone(&self) -> (r: Self)
        ensures
            r.deep_view() == self.deep_view(),
    {
        ChatMessage {
            id: self.id.clone(),
            from: self.from.clone(),
            body: self.body.clone(),
            ts: self.ts,
            channel: self.channel,
            kind: self.kind,
            quote_id: self.quote_id.clone(),
            file: self.file.clone(),
            deleted_by: self.deleted_by.clone(),
            reactions: self.reactions.clone(),
            read_by: self.read_by.clone(),
        }
    }
}

/// How far a channel was read.
#[derive(Debug, PartialEq, Eq)]
pub struct ReadCursor {
    pub channel: ChannelRef,
    /// The id of the last message read, in hex.
    pub id: String,
}

/// The model of [`ReadCursor`].
pub struct CursorV {
    pub channel: ChannelRef,
    pub id: Seq<char>,
}

impl DeepView for ReadCursor {
    type V = CursorV;

    open spec fn deep_view(&self) -> CursorV {
        CursorV {
            channel: self.channel,
            id: self.id@,
        }
    }
}

impl Clone for ReadCursor {
    fn clone(&self) -> (r: Self)
        ensures
            r.deep_view() == self.deep_view(),
    {
        ReadCursor {
            channel: self.channel,
            id: self.id.clone(),
        }
    }
}

/// The local path of one of this seat's shares.
#[derive(Debug, PartialEq, Eq)]
pub struct SharePath {
    pub id: MessageId,
    pub path: String,
}

/// The model of [`SharePath`].
pub struct ShareV {
    pub id: Seq<u8>,
    pub path: Seq<char>,
}

impl DeepView for SharePath {
    type V = ShareV;

    open spec fn deep_view(&self) -> ShareV {
        ShareV {
            id: self.id.deep_view(),
            path: self.path@,
        }
    }
}

impl Clone for SharePath {
    fn clone(&self) -> (r: Self)
        ensures
            r.deep_view() == self.deep_view(),
    {
        SharePath {
            id: self.id.clone(),
            path: self.path.clone(),
        }
    }
}

/// A download as it is shown.
#[derive(Debug, PartialEq, Eq)]
pub struct DownloadView {
    pub id: MessageId,
    pub phase: String,
    pub percent: u8,
    pub path: String,
    pub error: String,
}

/// The model of [`DownloadView`].
pub struct DownloadV {
    pub id: Seq<u8>,
    pub phase: Seq<char>,
    pub percent: u8,
    pub path: Seq<char>,
    pub error: Seq<char>,
}

impl DeepView for DownloadView {
    type V = DownloadV;

    open spec fn deep_view(&self) -> DownloadV {
        DownloadV {
            id: self.id.deep_view(),
            phase: self.phase@,
            percent: self.percent,
            path: self.path@,
            error: self.error@,
        }
    }
}

impl Clone for DownloadView {
    fn clone(&self) -> (r: Self)
        ensures
            r.deep_view() == self.deep_view(),
    {
        DownloadView {
            id: self.id.clone(),
            phase: self.phase.clone(),
            percent: self.percent,
            path: self.path.clone(),
            error: self.error.clone(),
        }
    }
}

/// How many messages of a member were dropped.
#[derive(Debug, PartialEq, Eq)]
pub struct PrunedCount {
    pub member: String,
    pub count: u64,
}

/// The model of [`PrunedCount`].
pub struct PrunedV {
    pub member: Seq<char>,
    pub count: u64,
}

impl DeepView for PrunedCount {
    type V = PrunedV;

    open spec fn deep_view(&self) -> PrunedV {
        PrunedV {
            member: self.member@,
            count: self.count,
        }
    }
}

impl Clone for PrunedCount {
    fn clone(&self) -> (r: Self)
        ensures
            r.deep_view() == self.deep_view(),
    {
        PrunedCount {
            member: self.member.clone(),
            count: self.count,
        }
    }
}

/// Where a transfer stands.
#[derive(Debug, PartialEq, Eq)]
pub enum TransferPhase {
    Requested,
    Progress {
        percent: u8,
    },
    Done {
        path: String,
    },
    Failed {
        reason: String,
    },
}

/// The model of [`TransferPhase`].
pub enum PhaseV {
    Requested,
    Progress {
        percent: u8,
    },
    Done {
        path: Seq<char>,
    },
    Failed {
        reason: Seq<char>,
    },
}

impl DeepView for TransferPhase {
    type V = PhaseV;

    open spec fn deep_view(&self) -> PhaseV {
        match *self {
            TransferPhase::Requested => PhaseV::Requested,
            TransferPhase::Progress { percent } => PhaseV::Progress {
                percent,
            },
            TransferPhase::Done { path } => PhaseV::Done {
                path: path@,
            },
            TransferPhase::Failed { reason } => PhaseV::Failed {
                reason: reason@,
            },
        }
    }
}

impl Clone for TransferPhase {
    fn clone(&self) -> (r: Self)
        ensures
            r.deep_view() == self.deep_view(),
    {
        match self {
            TransferPhase::Requested => TransferPhase::Requested,
            TransferPhase::Progress { percent } => TransferPhase::Progress {
                percent: *percent,
            },
            TransferPhase::Done { path } => TransferPhase::Done {
                path: path.clone(),
            },
            TransferPhase::Failed { reason } => TransferPhase::Failed {
                reason: reason.clone(),
            },
        }
    }
}

/// What is recorded of the chat, and sent where this seat is its author.
#[derive(Debug, PartialEq, Eq)]
pub enum ChatEvent {
    Chat {
        msg: ChatMessage,
    },
    Reacted {
        index: u64,
        id: MessageId,
        emoji: String,
        by: String,
        op: Option<ReactOp>,
    },
    Read {
        ids: Vec<MessageId>,
        by: String,
    },
    Deleted {
        index: u64,
        id: MessageId,
        by: String,
    },
    FileRemoved {
        index: u64,
        id: MessageId,
        by: String,
    },
}

/// The model of [`ChatEvent`].
pub enum ChatEventV {
    Chat {
        msg: MessageV,
    },
    Reacted {
        index: u64,
        id: Seq<u8>,
        emoji: Seq<char>,
        by: Seq<char>,
        op: Option<ReactOp>,
    },
    Read {
        ids: Seq<Seq<u8>>,
        by: Seq<char>,
    },
    Deleted {
        index: u64,
        id: Seq<u8>,
        by: Seq<char>,
    },
    FileRemoved {
        index: u64,
        id: Seq<u8>,
        by: Seq<char>,
    },
}

impl DeepView for ChatEvent {
    type V = ChatEventV;

    open spec fn deep_view(&self) -> ChatEventV {
        match *self {
            ChatEvent::Chat { msg } => ChatEventV::Chat {
                msg: msg.deep_view(),
            },
            ChatEvent::Reacted { index, id, emoji, by, op } => ChatEventV::Reacted {
                index,
                id: id.deep_view(),
                emoji: emoji@,
                by: by@,
                op: op.deep_view(),
            },
            ChatEvent::Read { ids, by } => ChatEventV::Read {
                ids: ids.deep_view(),
                by: by@,
            },
            ChatEvent::Deleted { index, id, by } => ChatEventV::Deleted {
                index,
                id: id.deep_view(),
                by: by@,
            },
            ChatEvent::FileRemoved { index, id, by } => ChatEventV::FileRemoved {
                index,
                id: id.deep_view(),
                by: by@,
            },
        }
    }
}

impl Clone for ChatEvent {
    fn clone(&self) -> (r: Self)
        ensures
            r.deep_view() == self.deep_view(),
    {
        match self {
            ChatEvent::Chat { msg } => ChatEvent::Chat {
                msg: msg.clone(),
            },
            ChatEvent::Reacted { index, id, emoji, by, op } => ChatEvent::Reacted {
                index: *index,
                id: id.clone(),
                emoji: emoji.clone(),
                by: by.clone(),
                op: op.clone(),
            },
            ChatEvent::Read { ids, by } => ChatEvent::Read {
                ids: ids.clone(),
                by: by.clone(),
            },
            ChatEvent::Deleted { index, id, by } => ChatEvent::Deleted {
                index: *index,
                id: id.clone(),
                by: by.clone(),
            },
            ChatEvent::FileRemoved { index, id, by } => ChatEvent::FileRemoved {
                index: *index,
                id: id.clone(),
                by: by.clone(),
            },
        }
    }
}

/// What the frontends are told.
#[derive(Debug, PartialEq, Eq)]
pub enum ChatNotice {
    Chat {
        id: MessageId,
        from: String,
        body: String,
        channel: ChannelRef,
    },
    Reacted {
        id: MessageId,
        emoji: String,
        by: String,
    },
    Read {
        ids: Vec<MessageId>,
        by: String,
    },
    Deleted {
        id: MessageId,
        by: String,
    },
    FileRemoved {
        id: MessageId,
        by: String,
    },
    FileTransfer {
        id: MessageId,
        phase: TransferPhase,
    },
    Session,
}

/// The model of [`ChatNotice`].
pub enum ChatNoticeV {
    Chat {
        id: Seq<u8>,
        from: Seq<char>,
        body: Seq<char>,
        channel: ChannelRef,
    },
    Reacted {
        id: Seq<u8>,
        emoji: Seq<char>,
        by: Seq<char>,
    },
    Read {
        ids: Seq<Seq<u8>>,
        by: Seq<char>,
    },
    Deleted {
        id: Seq<u8>,
        by: Seq<char>,
    },
    FileRemoved {
        id: Seq<u8>,
        by: Seq<char>,
    },
    FileTransfer {
        id: Seq<u8>,
        phase: PhaseV,
    },
    Session,
}

impl DeepView for ChatNotice {
    type V = ChatNoticeV;

    open spec fn deep_view(&self) -> ChatNoticeV {
        match *self {
            ChatNotice::Chat { id, from, body, channel } => ChatNoticeV::Chat {
                id: id.deep_view(),
                from: from@,
                body: body@,
                channel,
            },
            ChatNotice::Reacted { id, emoji, by } => ChatNoticeV::Reacted {
                id: id.deep_view(),
                emoji: emoji@,
                by: by@,
            },
            ChatNotice::Read { ids, by } => ChatNoticeV::Read {
                ids: ids.deep_view(),
                by: by@,
            },
            ChatNotice::Deleted { id, by } => ChatNoticeV::Deleted {
                id: id.deep_view(),
                by: by@,
            },
            ChatNotice::FileRemoved { id, by } => ChatNoticeV::FileRemoved {
                id: id.deep_view(),
                by: by@,
            },
            ChatNotice::FileTransfer { id, phase } => ChatNoticeV::FileTransfer {
                id: id.deep_view(),
                phase: phase.deep_view(),
            },
            ChatNotice::Session => ChatNoticeV::Session,
        }
    }
}

impl Clone for ChatNotice {
    fn clone(&self) -> (r: Self)
        ensures
            r.deep_view() == self.deep_view(),
    {
        match self {
            ChatNotice::Chat { id, from, body, channel } => ChatNotice::Chat {
                id: id.clone(),
                from: from.clone(),
                body: body.clone(),
                channel: *channel,
            },
            ChatNotice::Reacted { id, emoji, by } => ChatNotice::Reacted {
                id: id.clone(),
                emoji: emoji.clone(),
                by: by.clone(),
            },
            ChatNotice::Read { ids, by } => ChatNotice::Read {
                ids: ids.clone(),
                by: by.clone(),
            },
            ChatNotice::Deleted { id, by } => ChatNotice::Deleted {
                id: id.clone(),
                by: by.clone(),
            },
            ChatNotice::FileRemoved { id, by } => ChatNotice::FileRemoved {
                id: id.clone(),
                by: by.clone(),
            },
            ChatNotice::FileTransfer { id, phase } => ChatNotice::FileTransfer {
                id: id.clone(),
                phase: phase.clone(),
            },
            ChatNotice::Session => ChatNotice::Session,
        }
    }
}

/// The file that a download is for.
#[derive(Debug, PartialEq, Eq)]
pub struct FetchTarget {
    pub id: MessageId,
    pub name: String,
    pub size: u64,
    pub checksum: String,
}

/// The model of [`FetchTarget`].
pub struct TargetV {
    pub id: Seq<u8>,
    pub name: Seq<char>,
    pub size: u64,
    pub checksum: Seq<char>,
}

impl DeepView for FetchTarget {
    type V = TargetV;

    open spec fn deep_view(&self) -> TargetV {
        TargetV {
            id: self.id.deep_view(),
            name: self.name@,
            size: self.size,
            checksum: self.checksum@,
        }
    }
}

impl Clone for FetchTarget {
    fn clone(&self) -> (r: Self)
        ensures
            r.deep_view() == self.deep_view(),
    {
        FetchTarget {
            id: self.id.clone(),
            name: self.name.clone(),
            size: self.size,
            checksum: self.checksum.clone(),
        }
    }
}

/// What the host has to do, in this order.
#[derive(Debug, PartialEq, Eq)]
pub enum ChatEffect {
    /// Record an event.
    Record {
        event: ChatEvent,
    },
    /// Tell the frontends.
    Tell {
        notice: ChatNotice,
    },
    /// Write the cursors and share paths to the preferences, where the
    /// workspace is stored.
    SavePrefs,
    /// Read and hash a file that is to be shared.
    HashShare {
        path: String,
        channel: ChannelRef,
    },
    /// Copy the seat's own shared file.
    LocalCopy {
        source: String,
        target: FetchTarget,
        dest: Option<String>,
    },
    /// Fetch a file over the relays.
    RelayFetch {
        target: FetchTarget,
        dest: Option<String>,
    },
    /// Fetch a file from the member that shared it.
    PeerFetch {
        target: FetchTarget,
        dest: Option<String>,
    },
    /// Write the trimmed state and drop what the log no longer needs.
    CompactLog {
        holding: Vec<String>,
        wait: bool,
    },
}

/// The model of [`ChatEffect`].
pub enum ChatEffectV {
    Record {
        event: ChatEventV,
    },
    Tell {
        notice: ChatNoticeV,
    },
    SavePrefs,
    HashShare {
        path: Seq<char>,
        channel: ChannelRef,
    },
    LocalCopy {
        source: Seq<char>,
        target: TargetV,
        dest: Option<Seq<char>>,
    },
    RelayFetch {
        target: TargetV,
        dest: Option<Seq<char>>,
    },
    PeerFetch {
        target: TargetV,
        dest: Option<Seq<char>>,
    },
    CompactLog {
        holding: Seq<Seq<char>>,
        wait: bool,
    },
}

impl DeepView for ChatEffect {
    type V = ChatEffectV;

    open spec fn deep_view(&self) -> ChatEffectV {
        match *self {
            ChatEffect::Record { event } => ChatEffectV::Record {
                event: event.deep_view(),
            },
            ChatEffect::Tell { notice } => ChatEffectV::Tell {
                notice: notice.deep_view(),
            },
            ChatEffect::SavePrefs => ChatEffectV::SavePrefs,
            ChatEffect::HashShare { path, channel } => ChatEffectV::HashShare {
                path: path@,
                channel,
            },
            ChatEffect::LocalCopy { source, target, dest } => ChatEffectV::LocalCopy {
                source: source@,
                target: target.deep_view(),
                dest: dest.deep_view(),
            },
            ChatEffect::RelayFetch { target, dest } => ChatEffectV::RelayFetch {
                target: target.deep_view(),
                dest: dest.deep_view(),
            },
            ChatEffect::PeerFetch { target, dest } => ChatEffectV::PeerFetch {
                target: target.deep_view(),
                dest: dest.deep_view(),
            },
            ChatEffect::CompactLog { holding, wait } => ChatEffectV::CompactLog {
                holding: holding.deep_view(),
                wait,
            },
        }
    }
}

impl Clone for ChatEffect {
    fn clone(&self) -> (r: Self)
        ensures
            r.deep_view() == self.deep_view(),
    {
        match self {
            ChatEffect::Record { event } => ChatEffect::Record {
                event: event.clone(),
            },
            ChatEffect::Tell { notice } => ChatEffect::Tell {
                notice: notice.clone(),
            },
            ChatEffect::SavePrefs => ChatEffect::SavePrefs,
            ChatEffect::HashShare { path, channel } => ChatEffect::HashShare {
                path: path.clone(),
                channel: *channel,
            },
            ChatEffect::LocalCopy { source, target, dest } => ChatEffect::LocalCopy {
                source: source.clone(),
                target: target.clone(),
                dest: dest.clone(),
            },
            ChatEffect::RelayFetch { target, dest } => ChatEffect::RelayFetch {
                target: target.clone(),
                dest: dest.clone(),
            },
            ChatEffect::PeerFetch { target, dest } => ChatEffect::PeerFetch {
                target: target.clone(),
                dest: dest.clone(),
            },
            ChatEffect::CompactLog { holding, wait } => ChatEffect::CompactLog {
                holding: holding.clone(),
                wait: *wait,
            },
        }
    }
}

/// Why a chat command is refused.
#[derive(Debug, PartialEq, Eq)]
pub enum ChatError {
    /// The vote that the discussion is about was decided.
    DiscussionClosed {
        patch: u64,
        state: ProposalState,
    },
    /// The system has no random numbers to give.
    NoRandom {
        why: String,
    },
    /// The file path is empty.
    EmptyPath,
    /// The path names no file.
    NoFileName {
        path: String,
    },
    /// Files are not shared here.
    SharingOff,
    /// The file is larger than what may be shared.
    OverCap {
        size: u64,
        cap: u64,
    },
    UnknownMessage {
        id: MessageId,
    },
    /// The message shares no file.
    NoFile {
        id: MessageId,
    },
    /// The file was removed.
    FileUnavailable {
        id: MessageId,
    },
    /// The share is older than what is kept.
    FileExpired {
        id: MessageId,
    },
    AlreadyDownloading,
    /// The path of the seat's own file is not known any more.
    UnknownSource,
    /// No real node holds the file.
    NoRealNode,
    NotYourFile {
        id: MessageId,
    },
    NotYourMessage {
        id: MessageId,
    },
    /// A reaction is a short emoji.
    BadEmoji,
    /// A deleted message takes no reactions.
    Tombstone,
    /// The id is not a message id in hex.
    BadUpTo,
    /// The id names no known message.
    UnknownUpTo,
    /// The message is in another channel.
    ForeignUpTo,
}

/// The model of [`ChatError`].
pub enum ChatErrorV {
    DiscussionClosed {
        patch: u64,
        state: ProposalState,
    },
    NoRandom {
        why: Seq<char>,
    },
    EmptyPath,
    NoFileName {
        path: Seq<char>,
    },
    SharingOff,
    OverCap {
        size: u64,
        cap: u64,
    },
    UnknownMessage {
        id: Seq<u8>,
    },
    NoFile {
        id: Seq<u8>,
    },
    FileUnavailable {
        id: Seq<u8>,
    },
    FileExpired {
        id: Seq<u8>,
    },
    AlreadyDownloading,
    UnknownSource,
    NoRealNode,
    NotYourFile {
        id: Seq<u8>,
    },
    NotYourMessage {
        id: Seq<u8>,
    },
    BadEmoji,
    Tombstone,
    BadUpTo,
    UnknownUpTo,
    ForeignUpTo,
}

impl DeepView for ChatError {
    type V = ChatErrorV;

    open spec fn deep_view(&self) -> ChatErrorV {
        match *self {
            ChatError::DiscussionClosed { patch, state } => ChatErrorV::DiscussionClosed {
                patch,
                state,
            },
            ChatError::NoRandom { why } => ChatErrorV::NoRandom {
                why: why@,
            },
            ChatError::EmptyPath => ChatErrorV::EmptyPath,
            ChatError::NoFileName { path } => ChatErrorV::NoFileName {
                path: path@,
            },
            ChatError::SharingOff => ChatErrorV::SharingOff,
            ChatError::OverCap { size, cap } => ChatErrorV::OverCap {
                size,
                cap,
            },
            ChatError::UnknownMessage { id } => ChatErrorV::UnknownMessage {
                id: id.deep_view(),
            },
            ChatError::NoFile { id } => ChatErrorV::NoFile {
                id: id.deep_view(),
            },
            ChatError::FileUnavailable { id } => ChatErrorV::FileUnavailable {
                id: id.deep_view(),
            },
            ChatError::FileExpired { id } => ChatErrorV::FileExpired {
                id: id.deep_view(),
            },
            ChatError::AlreadyDownloading => ChatErrorV::AlreadyDownloading,
            ChatError::UnknownSource => ChatErrorV::UnknownSource,
            ChatError::NoRealNode => ChatErrorV::NoRealNode,
            ChatError::NotYourFile { id } => ChatErrorV::NotYourFile {
                id: id.deep_view(),
            },
            ChatError::NotYourMessage { id } => ChatErrorV::NotYourMessage {
                id: id.deep_view(),
            },
            ChatError::BadEmoji => ChatErrorV::BadEmoji,
            ChatError::Tombstone => ChatErrorV::Tombstone,
            ChatError::BadUpTo => ChatErrorV::BadUpTo,
            ChatError::UnknownUpTo => ChatErrorV::UnknownUpTo,
            ChatError::ForeignUpTo => ChatErrorV::ForeignUpTo,
        }
    }
}

impl Clone for ChatError {
    fn clone(&self) -> (r: Self)
        ensures
            r.deep_view() == self.deep_view(),
    {
        match self {
            ChatError::DiscussionClosed { patch, state } => ChatError::DiscussionClosed {
                patch: *patch,
                state: *state,
            },
            ChatError::NoRandom { why } => ChatError::NoRandom {
                why: why.clone(),
            },
            ChatError::EmptyPath => ChatError::EmptyPath,
            ChatError::NoFileName { path } => ChatError::NoFileName {
                path: path.clone(),
            },
            ChatError::SharingOff => ChatError::SharingOff,
            ChatError::OverCap { size, cap } => ChatError::OverCap {
                size: *size,
                cap: *cap,
            },
            ChatError::UnknownMessage { id } => ChatError::UnknownMessage {
                id: id.clone(),
            },
            ChatError::NoFile { id } => ChatError::NoFile {
                id: id.clone(),
            },
            ChatError::FileUnavailable { id } => ChatError::FileUnavailable {
                id: id.clone(),
            },
            ChatError::FileExpired { id } => ChatError::FileExpired {
                id: id.clone(),
            },
            ChatError::AlreadyDownloading => ChatError::AlreadyDownloading,
            ChatError::UnknownSource => ChatError::UnknownSource,
            ChatError::NoRealNode => ChatError::NoRealNode,
            ChatError::NotYourFile { id } => ChatError::NotYourFile {
                id: id.clone(),
            },
            ChatError::NotYourMessage { id } => ChatError::NotYourMessage {
                id: id.clone(),
            },
            ChatError::BadEmoji => ChatError::BadEmoji,
            ChatError::Tombstone => ChatError::Tombstone,
            ChatError::BadUpTo => ChatError::BadUpTo,
            ChatError::UnknownUpTo => ChatError::UnknownUpTo,
            ChatError::ForeignUpTo => ChatError::ForeignUpTo,
        }
    }
}

/// A seat's chat.
#[derive(Debug)]
pub struct ChatState {
    /// This seat's name.
    pub me: String,
    pub roster: Vec<String>,
    /// In log order.
    pub messages: Vec<ChatMessage>,
    /// At most one for each channel.
    pub cursors: Vec<ReadCursor>,
    pub share_paths: Vec<SharePath>,
    pub downloads: Vec<DownloadView>,
    /// Whether this seat tells what it read.
    pub read_receipts: bool,
    /// For how many days a message is shown.
    pub retention_days: u64,
    /// The largest file that may be shared; zero turns sharing off.
    pub file_cap: u64,
    /// Whether the republic runs over relays.
    pub on_relays: bool,
    /// The time, in seconds; the host keeps it.
    pub now: u64,
    /// Whether the workspace is open on a storage.
    pub stored: bool,
    pub compacted_at: u64,
    /// Whether messages were dropped for good.
    pub pruned: bool,
    pub pruned_counts: Vec<PrunedCount>,
    /// The session's notice line.
    pub notice: String,
    /// What the host still has to do.
    pub effects: Vec<ChatEffect>,
}

/// The model of [`ChatState`].
pub struct ChatV {
    pub me: Seq<char>,
    pub roster: Seq<Seq<char>>,
    pub messages: Seq<MessageV>,
    pub cursors: Seq<CursorV>,
    pub share_paths: Seq<ShareV>,
    pub downloads: Seq<DownloadV>,
    pub read_receipts: bool,
    pub retention_days: u64,
    pub file_cap: u64,
    pub on_relays: bool,
    pub now: u64,
    pub stored: bool,
    pub compacted_at: u64,
    pub pruned: bool,
    pub pruned_counts: Seq<PrunedV>,
    pub notice: Seq<char>,
    pub effects: Seq<ChatEffectV>,
}

impl DeepView for ChatState {
    type V = ChatV;

    open spec fn deep_view(&self) -> ChatV {
        ChatV {
            me: self.me@,
            roster: self.roster.deep_view(),
            messages: self.messages.deep_view(),
            cursors: self.cursors.deep_view(),
            share_paths: self.share_paths.deep_view(),
            downloads: self.downloads.deep_view(),
            read_receipts: self.read_receipts,
            retention_days: self.retention_days,
            file_cap: self.file_cap,
            on_relays: self.on_relays,
            now: self.now,
            stored: self.stored,
            compacted_at: self.compacted_at,
            pruned: self.pruned,
            pruned_counts: self.pruned_counts.deep_view(),
            notice: self.notice@,
            effects: self.effects.deep_view(),
        }
    }
}

} // verus!
