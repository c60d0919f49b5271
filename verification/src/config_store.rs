//! The owner of the configuration file. It alone writes the file, and it looks
//! at it now and then for edits made by others. Decided here is what each
//! request and each look at the file comes to; the reading and writing is the
//! host's.

use crate::chat::trim;
use crate::chat;
use crate::text::{append_number, same_text};
use crate::text;
use vstd::prelude::*;
use vstd::string::*;

verus! {

/// For how long a burst of writes is collected, in milliseconds.
pub const DEBOUNCE_MILLIS: u64 = 250;

/// How often the file is looked at, in seconds.
pub const POLL_INTERVAL_SECS: u64 = 2;

/// How many requests may wait.
pub const STORE_QUEUE: usize = 32;

/// The settings as the configuration file has them.
#[derive(Debug, PartialEq, Eq)]
pub struct Settings {
    pub headless: bool,
    pub workspace_dir: String,
    pub s3_backup: bool,
    pub s3_endpoint: String,
    pub s3_access_key: String,
    pub s3_secret_key: String,
    pub s3_bucket: String,
    pub s3_interval_min: u32,
    pub s3_keep_copies: u32,
    pub sound_message: String,
    pub sound_vote: String,
    pub read_receipts: bool,
    pub anonymity: String,
    pub tor_mode: String,
    pub tor_port: u16,
    pub smp_server: String,
    pub smp_url: String,
    pub smp_urls: Vec<String>,
    pub download_dir: String,
    pub mcp_port: u16,
    pub mcp_allow: Vec<String>,
    pub mcp_token: String,
    pub lang: String,
    pub theme: String,
}

/// The model of [`Settings`].
pub struct SettingsV {
    pub headless: bool,
    pub workspace_dir: Seq<char>,
    pub s3_backup: bool,
    pub s3_endpoint: Seq<char>,
    pub s3_access_key: Seq<char>,
    pub s3_secret_key: Seq<char>,
    pub s3_bucket: Seq<char>,
    pub s3_interval_min: u32,
    pub s3_keep_copies: u32,
    pub sound_message: Seq<char>,
    pub sound_vote: Seq<char>,
    pub read_receipts: bool,
    pub anonymity: Seq<char>,
    pub tor_mode: Seq<char>,
    pub tor_port: u16,
    pub smp_server: Seq<char>,
    pub smp_url: Seq<char>,
    pub smp_urls: Seq<Seq<char>>,
    pub download_dir: Seq<char>,
    pub mcp_port: u16,
    pub mcp_allow: Seq<Seq<char>>,
    pub mcp_token: Seq<char>,
    pub lang: Seq<char>,
    pub theme: Seq<char>,
}

impl DeepView for Settings {
    type V = SettingsV;

    open spec fn deep_view(&self) -> SettingsV {
        SettingsV {
            headless: self.headless,
            workspace_dir: self.workspace_dir@,
            s3_backup: self.s3_backup,
            s3_endpoint: self.s3_endpoint@,
            s3_access_key: self.s3_access_key@,
            s3_secret_key: self.s3_secret_key@,
            s3_bucket: self.s3_bucket@,
            s3_interval_min: self.s3_interval_min,
            s3_keep_copies: self.s3_keep_copies,
            sound_message: self.sound_message@,
            sound_vote: self.sound_vote@,
            read_receipts: self.read_receipts,
            anonymity: self.anonymity@,
            tor_mode: self.tor_mode@,
            tor_port: self.tor_port,
            smp_server: self.smp_server@,
            smp_url: self.smp_url@,
            smp_urls: self.smp_urls.deep_view(),
            download_dir: self.download_dir@,
            mcp_port: self.mcp_port,
            mcp_allow: self.mcp_allow.deep_view(),
            mcp_token: self.mcp_token@,
            lang: self.lang@,
            theme: self.theme@,
        }
    }
}

impl Clone for Settings {
    fn clone(&self) -> (r: Self)
        ensures
            r.deep_view() == self.deep_view(),
    {
        Settings {
            headless: self.headless,
            workspace_dir: self.workspace_dir.clone(),
            s3_backup: self.s3_backup,
            s3_endpoint: self.s3_endpoint.clone(),
            s3_access_key: self.s3_access_key.clone(),
            s3_secret_key: self.s3_secret_key.clone(),
            s3_bucket: self.s3_bucket.clone(),
            s3_interval_min: self.s3_interval_min,
            s3_keep_copies: self.s3_keep_copies,
            sound_message: self.sound_message.clone(),
            sound_vote: self.sound_vote.clone(),
            read_receipts: self.read_receipts,
            anonymity: self.anonymity.clone(),
            tor_mode: self.tor_mode.clone(),
            tor_port: self.tor_port,
            smp_server: self.smp_server.clone(),
            smp_url: self.smp_url.clone(),
            smp_urls: self.smp_urls.clone(),
            download_dir: self.download_dir.clone(),
            mcp_port: self.mcp_port,
            mcp_allow: self.mcp_allow.clone(),
            mcp_token: self.mcp_token.clone(),
            lang: self.lang.clone(),
            theme: self.theme.clone(),
        }
    }
}

/// The settings as a session has them: language and theme stand apart.
#[derive(Debug, PartialEq, Eq)]
pub struct SessionSettings {
    pub headless: bool,
    pub workspace_dir: String,
    pub s3_backup: bool,
    pub s3_endpoint: String,
    pub s3_access_key: String,
    pub s3_secret_key: String,
    pub s3_bucket: String,
    pub s3_interval_min: u32,
    pub s3_keep_copies: u32,
    pub sound_message: String,
    pub sound_vote: String,
    pub read_receipts: bool,
    pub anonymity: String,
    pub tor_mode: String,
    pub tor_port: u16,
    pub smp_server: String,
    pub smp_url: String,
    pub smp_urls: Vec<String>,
    pub download_dir: String,
    pub mcp_port: u16,
    pub mcp_allow: Vec<String>,
    pub mcp_token: String,
}

/// The model of [`SessionSettings`].
pub struct SessionV {
    pub headless: bool,
    pub workspace_dir: Seq<char>,
    pub s3_backup: bool,
    pub s3_endpoint: Seq<char>,
    pub s3_access_key: Seq<char>,
    pub s3_secret_key: Seq<char>,
    pub s3_bucket: Seq<char>,
    pub s3_interval_min: u32,
    pub s3_keep_copies: u32,
    pub sound_message: Seq<char>,
    pub sound_vote: Seq<char>,
    pub read_receipts: bool,
    pub anonymity: Seq<char>,
    pub tor_mode: Seq<char>,
    pub tor_port: u16,
    pub smp_server: Seq<char>,
    pub smp_url: Seq<char>,
    pub smp_urls: Seq<Seq<char>>,
    pub download_dir: Seq<char>,
    pub mcp_port: u16,
    pub mcp_allow: Seq<Seq<char>>,
    pub mcp_token: Seq<char>,
}

impl DeepView for SessionSettings {
    type V = SessionV;

    open spec fn deep_view(&self) -> SessionV {
        SessionV {
            headless: self.headless,
            workspace_dir: self.workspace_dir@,
            s3_backup: self.s3_backup,
            s3_endpoint: self.s3_endpoint@,
            s3_access_key: self.s3_access_key@,
            s3_secret_key: self.s3_secret_key@,
            s3_bucket: self.s3_bucket@,
            s3_interval_min: self.s3_interval_min,
            s3_keep_copies: self.s3_keep_copies,
            sound_message: self.sound_message@,
            sound_vote: self.sound_vote@,
            read_receipts: self.read_receipts,
            anonymity: self.anonymity@,
            tor_mode: self.tor_mode@,
            tor_port: self.tor_port,
            smp_server: self.smp_server@,
            smp_url: self.smp_url@,
            smp_urls: self.smp_urls.deep_view(),
            download_dir: self.download_dir@,
            mcp_port: self.mcp_port,
            mcp_allow: self.mcp_allow.deep_view(),
            mcp_token: self.mcp_token@,
        }
    }
}

impl Clone for SessionSettings {
    fn clone(&self) -> (r: Self)
        ensures
            r.deep_view() == self.deep_view(),
    {
        SessionSettings {
            headless: self.headless,
            workspace_dir: self.workspace_dir.clone(),
            s3_backup: self.s3_backup,
            s3_endpoint: self.s3_endpoint.clone(),
            s3_access_key: self.s3_access_key.clone(),
            s3_secret_key: self.s3_secret_key.clone(),
            s3_bucket: self.s3_bucket.clone(),
            s3_interval_min: self.s3_interval_min,
            s3_keep_copies: self.s3_keep_copies,
            sound_message: self.sound_message.clone(),
            sound_vote: self.sound_vote.clone(),
            read_receipts: self.read_receipts,
            anonymity: self.anonymity.clone(),
            tor_mode: self.tor_mode.clone(),
            tor_port: self.tor_port,
            smp_server: self.smp_server.clone(),
            smp_url: self.smp_url.clone(),
            smp_urls: self.smp_urls.clone(),
            download_dir: self.download_dir.clone(),
            mcp_port: self.mcp_port,
            mcp_allow: self.mcp_allow.clone(),
            mcp_token: self.mcp_token.clone(),
        }
    }
}

/// A request to the owner of the configuration file. An acknowledgement is
/// known by its number.
#[derive(Debug, PartialEq, Eq)]
pub enum StoreRequest {
    /// Write these settings; `notify` asks for a notice of the outcome.
    Persist {
        settings: Settings,
        notify: bool,
    },
    /// Look at the file now.
    PollNow {
        ack: u64,
    },
    /// Release the lock and stop.
    Shutdown {
        ack: u64,
    },
}

/// The model of [`StoreRequest`].
pub enum RequestV {
    Persist {
        settings: SettingsV,
        notify: bool,
    },
    PollNow {
        ack: u64,
    },
    Shutdown {
        ack: u64,
    },
}

impl DeepView for StoreRequest {
    type V = RequestV;

    open spec fn deep_view(&self) -> RequestV {
        match *self {
            StoreRequest::Persist { settings, notify } => RequestV::Persist {
                settings: settings.deep_view(),
                notify,
            },
            StoreRequest::PollNow { ack } => RequestV::PollNow {
                ack,
            },
            StoreRequest::Shutdown { ack } => RequestV::Shutdown {
                ack,
            },
        }
    }
}

impl Clone for StoreRequest {
    fn clone(&self) -> (r: Self)
        ensures
            r.deep_view() == self.deep_view(),
    {
        match self {
            StoreRequest::Persist { settings, notify } => StoreRequest::Persist {
                settings: settings.clone(),
                notify: *notify,
            },
            StoreRequest::PollNow { ack } => StoreRequest::PollNow {
                ack: *ack,
            },
            StoreRequest::Shutdown { ack } => StoreRequest::Shutdown {
                ack: *ack,
            },
        }
    }
}

/// What a burst of requests comes to.
#[derive(Debug, PartialEq, Eq)]
pub struct Coalesced {
    pub settings: Settings,
    pub notify: bool,
    /// What is left to do after the write.
    pub deferred: Vec<StoreRequest>,
}

/// The model of [`Coalesced`].
pub struct CoalescedV {
    pub settings: SettingsV,
    pub notify: bool,
    pub deferred: Seq<RequestV>,
}

impl DeepView for Coalesced {
    type V = CoalescedV;

    open spec fn deep_view(&self) -> CoalescedV {
        CoalescedV {
            settings: self.settings.deep_view(),
            notify: self.notify,
            deferred: self.deferred.deep_view(),
        }
    }
}

impl Clone for Coalesced {
    fn clone(&self) -> (r: Self)
        ensures
            r.deep_view() == self.deep_view(),
    {
        Coalesced {
            settings: self.settings.clone(),
            notify: self.notify,
            deferred: self.deferred.clone(),
        }
    }
}

/// What came of reading the file.
#[derive(Debug, PartialEq, Eq)]
pub enum FileRead {
    Text {
        text: String,
    },
    /// There is no such file.
    Missing,
    Failed {
        why: String,
    },
}

/// The model of [`FileRead`].
pub enum ReadV {
    Text {
        text: Seq<char>,
    },
    Missing,
    Failed {
        why: Seq<char>,
    },
}

impl DeepView for FileRead {
    type V = ReadV;

    open spec fn deep_view(&self) -> ReadV {
        match *self {
            FileRead::Text { text } => ReadV::Text {
                text: text@,
            },
            FileRead::Missing => ReadV::Missing,
            FileRead::Failed { why } => ReadV::Failed {
                why: why@,
            },
        }
    }
}

impl Clone for FileRead {
    fn clone(&self) -> (r: Self)
        ensures
            r.deep_view() == self.deep_view(),
    {
        match self {
            FileRead::Text { text } => FileRead::Text {
                text: text.clone(),
            },
            FileRead::Missing => FileRead::Missing,
            FileRead::Failed { why } => FileRead::Failed {
                why: why.clone(),
            },
        }
    }
}

/// What came of a write.
#[derive(Debug, PartialEq, Eq)]
pub enum WriteOutcome {
    /// The file could not be read.
    ReadFailed {
        path: String,
        why: String,
    },
    /// The file on disk is no valid configuration; it is never guessed at.
    Invalid,
    /// The new text could not be put in place.
    WriteFailed {
        why: String,
    },
    /// The file now has this text.
    Written {
        text: String,
    },
}

/// The model of [`WriteOutcome`].
pub enum OutcomeV {
    ReadFailed {
        path: Seq<char>,
        why: Seq<char>,
    },
    Invalid,
    WriteFailed {
        why: Seq<char>,
    },
    Written {
        text: Seq<char>,
    },
}

impl DeepView for WriteOutcome {
    type V = OutcomeV;

    open spec fn deep_view(&self) -> OutcomeV {
        match *self {
            WriteOutcome::ReadFailed { path, why } => OutcomeV::ReadFailed {
                path: path@,
                why: why@,
            },
            WriteOutcome::Invalid => OutcomeV::Invalid,
            WriteOutcome::WriteFailed { why } => OutcomeV::WriteFailed {
                why: why@,
            },
            WriteOutcome::Written { text } => OutcomeV::Written {
                text: text@,
            },
        }
    }
}

impl Clone for WriteOutcome {
    fn clone(&self) -> (r: Self)
        ensures
            r.deep_view() == self.deep_view(),
    {
        match self {
            WriteOutcome::ReadFailed { path, why } => WriteOutcome::ReadFailed {
                path: path.clone(),
                why: why.clone(),
            },
            WriteOutcome::Invalid => WriteOutcome::Invalid,
            WriteOutcome::WriteFailed { why } => WriteOutcome::WriteFailed {
                why: why.clone(),
            },
            WriteOutcome::Written { text } => WriteOutcome::Written {
                text: text.clone(),
            },
        }
    }
}

/// What a look at the file asks for.
#[derive(Debug, PartialEq, Eq)]
pub enum PollStep {
    /// Nothing.
    Idle,
    /// Announce the conflict.
    Complain,
    /// Find out whether this text is a valid configuration.
    Check {
        text: String,
    },
}

/// The model of [`PollStep`].
pub enum PollV {
    Idle,
    Complain,
    Check {
        text: Seq<char>,
    },
}

impl DeepView for PollStep {
    type V = PollV;

    open spec fn deep_view(&self) -> PollV {
        match *self {
            PollStep::Idle => PollV::Idle,
            PollStep::Complain => PollV::Complain,
            PollStep::Check { text } => PollV::Check {
                text: text@,
            },
        }
    }
}

impl Clone for PollStep {
    fn clone(&self) -> (r: Self)
        ensures
            r.deep_view() == self.deep_view(),
    {
        match self {
            PollStep::Idle => PollStep::Idle,
            PollStep::Complain => PollStep::Complain,
            PollStep::Check { text } => PollStep::Check {
                text: text.clone(),
            },
        }
    }
}

/// What to do about a lock that is held.
#[derive(Debug, PartialEq, Eq)]
pub enum LockStep {
    /// Its holder is alive: do not start.
    Refuse {
        message: String,
    },
    /// It is left over: remove it and try again.
    Sweep,
}

/// The model of [`LockStep`].
pub enum LockV {
    Refuse {
        message: Seq<char>,
    },
    Sweep,
}

impl DeepView for LockStep {
    type V = LockV;

    open spec fn deep_view(&self) -> LockV {
        match *self {
            LockStep::Refuse { message } => LockV::Refuse {
                message: message@,
            },
            LockStep::Sweep => LockV::Sweep,
        }
    }
}

impl Clone for LockStep {
    fn clone(&self) -> (r: Self)
        ensures
            r.deep_view() == self.deep_view(),
    {
        match self {
            LockStep::Refuse { message } => LockStep::Refuse {
                message: message.clone(),
            },
            LockStep::Sweep => LockStep::Sweep,
        }
    }
}

/// What the owner of the configuration file keeps in mind.
#[derive(Debug, PartialEq, Eq)]
pub struct ConfigStore {
    /// The text that was last written, or last taken over.
    pub last_good: String,
    /// The text that was already complained about, or the marker for a missing
    /// file.
    pub conflict: Option<String>,
}

/// The model of [`ConfigStore`].
pub struct StoreV {
    pub last_good: Seq<char>,
    pub conflict: Option<Seq<char>>,
}

impl DeepView for ConfigStore {
    type V = StoreV;

    open spec fn deep_view(&self) -> StoreV {
        StoreV {
            last_good: self.last_good@,
            conflict: self.conflict.deep_view(),
        }
    }
}

impl Clone for ConfigStore {
    fn clone(&self) -> (r: Self)
        ensures
            r.deep_view() == self.deep_view(),
    {
        ConfigStore {
            last_good: self.last_good.clone(),
            conflict: self.conflict.clone(),
        }
    }
}

/// The file's settings for a session.
pub open spec fn file_of(s: SessionV, lang: Seq<char>, theme: Seq<char>) -> SettingsV {
    SettingsV {
        headless: s.headless,
        workspace_dir: s.workspace_dir,
        s3_backup: s.s3_backup,
        s3_endpoint: s.s3_endpoint,
        s3_access_key: s.s3_access_key,
        s3_secret_key: s.s3_secret_key,
        s3_bucket: s.s3_bucket,
        s3_interval_min: s.s3_interval_min,
        s3_keep_copies: s.s3_keep_copies,
        sound_message: s.sound_message,
        sound_vote: s.sound_vote,
        read_receipts: s.read_receipts,
        anonymity: s.anonymity,
        tor_mode: s.tor_mode,
        tor_port: s.tor_port,
        smp_server: s.smp_server,
        smp_url: s.smp_url,
        smp_urls: s.smp_urls,
        download_dir: s.download_dir,
        mcp_port: s.mcp_port,
        mcp_allow: s.mcp_allow,
        mcp_token: s.mcp_token,
        lang,
        theme,
    }
}

/// The session's settings for a file.
pub open spec fn session_of(s: SettingsV) -> SessionV {
    SessionV {
        headless: s.headless,
        workspace_dir: s.workspace_dir,
        s3_backup: s.s3_backup,
        s3_endpoint: s.s3_endpoint,
        s3_access_key: s.s3_access_key,
        s3_secret_key: s.s3_secret_key,
        s3_bucket: s.s3_bucket,
        s3_interval_min: s.s3_interval_min,
        s3_keep_copies: s.s3_keep_copies,
        sound_message: s.sound_message,
        sound_vote: s.sound_vote,
        read_receipts: s.read_receipts,
        anonymity: s.anonymity,
        tor_mode: s.tor_mode,
        tor_port: s.tor_port,
        smp_server: s.smp_server,
        smp_url: s.smp_url,
        smp_urls: s.smp_urls,
        download_dir: s.download_dir,
        mcp_port: s.mcp_port,
        mcp_allow: s.mcp_allow,
        mcp_token: s.mcp_token,
    }
}

/// The file's settings for a session.
pub fn file_settings(s: &SessionSettings, language: &str, theme: &str) -> (r: Settings)
    ensures
        r.deep_view() == file_of(s.deep_view(), language@, theme@),
{
    Settings {
        headless: s.headless,
        workspace_dir: s.workspace_dir.clone(),
        s3_backup: s.s3_backup,
        s3_endpoint: s.s3_endpoint.clone(),
        s3_access_key: s.s3_access_key.clone(),
        s3_secret_key: s.s3_secret_key.clone(),
        s3_bucket: s.s3_bucket.clone(),
        s3_interval_min: s.s3_interval_min,
        s3_keep_copies: s.s3_keep_copies,
        sound_message: s.sound_message.clone(),
        sound_vote: s.sound_vote.clone(),
        read_receipts: s.read_receipts,
        anonymity: s.anonymity.clone(),
        tor_mode: s.tor_mode.clone(),
        tor_port: s.tor_port,
        smp_server: s.smp_server.clone(),
        smp_url: s.smp_url.clone(),
        smp_urls: s.smp_urls.clone(),
        download_dir: s.download_dir.clone(),
        mcp_port: s.mcp_port,
        mcp_allow: s.mcp_allow.clone(),
        mcp_token: s.mcp_token.clone(),
        lang: language.to_owned(),
        theme: theme.to_owned(),
    }
}

/// The session's settings for a file.
pub fn session_settings(s: &Settings) -> (r: SessionSettings)
    ensures
        r.deep_view() == session_of(s.deep_view()),
{
    SessionSettings {
        headless: s.headless,
        workspace_dir: s.workspace_dir.clone(),
        s3_backup: s.s3_backup,
        s3_endpoint: s.s3_endpoint.clone(),
        s3_access_key: s.s3_access_key.clone(),
        s3_secret_key: s.s3_secret_key.clone(),
        s3_bucket: s.s3_bucket.clone(),
        s3_interval_min: s.s3_interval_min,
        s3_keep_copies: s.s3_keep_copies,
        sound_message: s.sound_message.clone(),
        sound_vote: s.sound_vote.clone(),
        read_receipts: s.read_receipts,
        anonymity: s.anonymity.clone(),
        tor_mode: s.tor_mode.clone(),
        tor_port: s.tor_port,
        smp_server: s.smp_server.clone(),
        smp_url: s.smp_url.clone(),
        smp_urls: s.smp_urls.clone(),
        download_dir: s.download_dir.clone(),
        mcp_port: s.mcp_port,
        mcp_allow: s.mcp_allow.clone(),
        mcp_token: s.mcp_token.clone(),
    }
}

/// Nothing is lost between session and file, either way.
pub proof fn settings_survive_both_ways(
    session: SessionV,
    file: SettingsV,
    lang: Seq<char>,
    theme: Seq<char>,
)
    ensures
        session_of(file_of(session, lang, theme)) == session,
        file_of(session, lang, theme).lang == lang,
        file_of(session, lang, theme).theme == theme,
        file_of(session_of(file), file.lang, file.theme) == file,
{
}

/// A burst of requests that begins with a write: the newest settings win, a
/// notice is owed if any write asked for one, and everything else waits.
pub open spec fn burst(settings: SettingsV, notify: bool, rest: Seq<RequestV>) -> CoalescedV
    decreases rest.len(),
{
    if rest.len() == 0 {
        CoalescedV { settings, notify, deferred: Seq::empty() }
    } else {
        let before = burst(settings, notify, rest.drop_last());
        match rest.last() {
            RequestV::Persist { settings, notify } => CoalescedV {
                settings,
                notify: before.notify || notify,
                ..before
            },
            other => CoalescedV { deferred: before.deferred.push(other), ..before },
        }
    }
}

/// Merges a burst of requests that begins with a write.
pub fn coalesce(settings: Settings, notify: bool, rest: &Vec<StoreRequest>) -> (r: Coalesced)
    ensures
        r.deep_view() == burst(settings.deep_view(), notify, rest.deep_view()),
{
    let ghost all = rest.deep_view();
    let ghost first = settings.deep_view();
    let mut out = Coalesced { settings, notify, deferred: Vec::new() };
    let mut i: usize = 0;
    assert(all.take(0) =~= Seq::empty());
    assert(out.deferred.deep_view() =~= Seq::empty());
    while i < rest.len()
        invariant
            i <= rest.len(),
            all == rest.deep_view(),
            out.deep_view() == burst(first, notify, all.take(i as int)),
        decreases rest.len() - i,
    {
        let ghost before = out.deep_view();
        proof {
            assert(all.take(i + 1).drop_last() =~= all.take(i as int));
            assert(all.take(i + 1).last() == rest@[i as int].deep_view());
        }
        match &rest[i] {
            StoreRequest::Persist { settings, notify } => {
                out.settings = settings.clone();
                out.notify = out.notify || *notify;
            },
            other => {
                let copy = other.clone();
                out.deferred.push(copy);
                assert(out.deferred.deep_view() =~= before.deferred.push(copy.deep_view()));
            },
        }
        i = i + 1;
    }
    assert(all.take(i as int) =~= all);
    out
}

/// No request but a write is merged away: all of them wait, in order.
pub proof fn only_writes_are_merged(settings: SettingsV, notify: bool, rest: Seq<RequestV>)
    ensures
        burst(settings, notify, rest).deferred == rest.filter(|q: RequestV| !(q is Persist)),
        burst(settings, notify, rest).notify == (notify || exists|k: int|
            0 <= k < rest.len() && #[trigger] rest[k] is Persist && rest[k]->notify),
    decreases rest.len(),
{
    let other = |q: RequestV| !(q is Persist);
    reveal(Seq::filter);
    if rest.len() > 0 {
        let front = rest.drop_last();
        only_writes_are_merged(settings, notify, front);
        let asked = exists|k: int|
            0 <= k < rest.len() && #[trigger] rest[k] is Persist && rest[k]->notify;
        let asked_before = exists|k: int|
            0 <= k < front.len() && #[trigger] front[k] is Persist && front[k]->notify;
        if asked_before {
            let k = choose|k: int|
                0 <= k < front.len() && #[trigger] front[k] is Persist && front[k]->notify;
            assert(rest[k] == front[k]);
        }
        assert(rest[rest.len() - 1] == rest.last());
        if asked && !(rest.last() is Persist && rest.last()->notify) {
            let k = choose|k: int|
                0 <= k < rest.len() && #[trigger] rest[k] is Persist && rest[k]->notify;
            assert(front[k] == rest[k]);
        }
    }
}

/// The newest settings win.
pub proof fn the_newest_settings_win(settings: SettingsV, notify: bool, rest: Seq<RequestV>, k: int)
    requires
        0 <= k < rest.len(),
        rest[k] is Persist,
        forall|j: int| k < j < rest.len() ==> !(#[trigger] rest[j] is Persist),
    ensures
        burst(settings, notify, rest).settings == rest[k]->settings,
    decreases rest.len(),
{
    if k < rest.len() - 1 {
        let front = rest.drop_last();
        assert forall|j: int| k < j < front.len() implies !(#[trigger] front[j] is Persist) by {
            assert(rest[j] == front[j]);
        }
        assert(!(rest[rest.len() - 1] is Persist));
        the_newest_settings_win(settings, notify, front, k);
    }
}

/// Why a write failed, in words.
pub open spec fn failure(outcome: OutcomeV) -> Seq<char> {
    match outcome {
        OutcomeV::ReadFailed { path, why } => "reading "@ + path + ": "@ + why,
        OutcomeV::Invalid => "config.toml on disk is invalid; fix it or run --repair-config"@,
        OutcomeV::WriteFailed { why } => why,
        OutcomeV::Written { text } => Seq::empty(),
    }
}

impl StoreV {
    /// The text that new settings are written into: what is on disk, or the
    /// last good text where there is no file.
    pub open spec fn base(self, read: ReadV) -> Option<Seq<char>> {
        match read {
            ReadV::Text { text } => Some(text),
            ReadV::Missing => Some(self.last_good),
            ReadV::Failed { why } => None,
        }
    }

    /// The store after a write.
    pub open spec fn written(self, outcome: OutcomeV) -> StoreV {
        match outcome {
            OutcomeV::Written { text } => StoreV { last_good: text, conflict: None },
            _ => self,
        }
    }

    /// The notice after a write: a failure is always told, a success where it
    /// was asked for.
    pub open spec fn write_notice(self, outcome: OutcomeV, notify: bool) -> Option<Seq<char>> {
        match outcome {
            OutcomeV::Written { text } => if notify {
                Some("saved"@)
            } else {
                None
            },
            _ => Some("save-failed: "@ + failure(outcome)),
        }
    }

    /// The store after a complaint about a text.
    pub open spec fn complaining(self, about: Seq<char>) -> StoreV {
        StoreV { conflict: Some(about), ..self }
    }

    /// What a look at the file asks for.
    pub open spec fn look(self, read: ReadV) -> PollV {
        match read {
            ReadV::Missing => if self.conflict == Some("<missing>"@) {
                PollV::Idle
            } else {
                PollV::Complain
            },
            ReadV::Failed { why } => PollV::Idle,
            ReadV::Text { text } => if text == self.last_good {
                PollV::Idle
            } else {
                PollV::Check { text }
            },
        }
    }

    /// The store after a look at the file.
    pub open spec fn looked(self, read: ReadV) -> StoreV {
        if self.look(read) is Complain {
            self.complaining("<missing>"@)
        } else {
            self
        }
    }

    /// Is a rejected text to be complained about? Once for each text.
    pub open spec fn complains(self, text: Seq<char>, accepted: bool) -> bool {
        !accepted && self.conflict != Some(text)
    }

    /// The store once a text was found valid and taken over, or was rejected.
    pub open spec fn judged(self, text: Seq<char>, accepted: bool) -> StoreV {
        if accepted {
            StoreV { last_good: text, conflict: None }
        } else {
            self.complaining(text)
        }
    }
}

/// Is the text what was complained about?
fn is_about(conflict: &Option<String>, text: &str) -> (r: bool)
    ensures
        r == (conflict.deep_view() == Some(text@)),
{
    match conflict {
        Some(t) => same_text(t.as_str(), text),
        None => false,
    }
}

impl ConfigStore {
    /// The text that new settings are written into; none where the file could
    /// not be read.
    pub fn write_base(&self, read: &FileRead) -> (r: Option<String>)
        ensures
            r.deep_view() == self.deep_view().base(read.deep_view()),
    {
        match read {
            FileRead::Text { text } => Some(text.clone()),
            FileRead::Missing => Some(self.last_good.clone()),
            FileRead::Failed { why: _ } => None,
        }
    }

    /// Notes what came of a write; gives the notice to show.
    pub fn wrote(&mut self, outcome: &WriteOutcome, notify: bool) -> (r: Option<String>)
        ensures
            final(self).deep_view() == old(self).deep_view().written(outcome.deep_view()),
            r.deep_view() == old(self).deep_view().write_notice(outcome.deep_view(), notify),
    {
        let mut notice = "save-failed: ".to_owned();
        match outcome {
            WriteOutcome::Written { text } => {
                self.last_good = text.clone();
                self.conflict = None;
                return if notify {
                    Some("saved".to_owned())
                } else {
                    None
                };
            },
            WriteOutcome::ReadFailed { path, why } => {
                notice.append("reading ");
                notice.append(path.as_str());
                notice.append(": ");
                notice.append(why.as_str());
                assert(notice@ =~= "save-failed: "@ + failure(outcome.deep_view()));
            },
            WriteOutcome::Invalid => {
                notice.append("config.toml on disk is invalid; fix it or run --repair-config");
            },
            WriteOutcome::WriteFailed { why } => {
                notice.append(why.as_str());
            },
        }
        Some(notice)
    }

    /// Looks at what was read of the file. A missing file is complained about
    /// once; the text that was last written is no news.
    pub fn poll(&mut self, read: FileRead) -> (r: PollStep)
        ensures
            final(self).deep_view() == old(self).deep_view().looked(read.deep_view()),
            r.deep_view() == old(self).deep_view().look(read.deep_view()),
    {
        match read {
            FileRead::Missing => {
                if is_about(&self.conflict, "<missing>") {
                    PollStep::Idle
                } else {
                    self.conflict = Some("<missing>".to_owned());
                    PollStep::Complain
                }
            },
            FileRead::Failed { why: _ } => PollStep::Idle,
            FileRead::Text { text } => {
                if same_text(text.as_str(), self.last_good.as_str()) {
                    PollStep::Idle
                } else {
                    PollStep::Check { text }
                }
            },
        }
    }

    /// Notes whether an edited text was taken over; says whether to complain.
    pub fn judge(&mut self, text: String, accepted: bool) -> (r: bool)
        ensures
            final(self).deep_view() == old(self).deep_view().judged(text@, accepted),
            r == old(self).deep_view().complains(text@, accepted),
    {
        if accepted {
            self.last_good = text;
            self.conflict = None;
            return false;
        }
        let known = is_about(&self.conflict, text.as_str());
        if !known {
            self.conflict = Some(text);
        }
        !known
    }
}

/// What was written here is no news when it is read: a write never comes back
/// as an edit.
pub proof fn an_own_write_is_no_news(store: StoreV, text: Seq<char>)
    ensures
        store.written(OutcomeV::Written { text }).look(ReadV::Text { text }) is Idle,
{
}

/// A failed write keeps the last good text.
pub proof fn a_failed_write_changes_nothing(store: StoreV, outcome: OutcomeV, notify: bool)
    requires
        !(outcome is Written),
    ensures
        store.written(outcome) == store,
        store.write_notice(outcome, notify) is Some,
{
}

/// A text that stays broken is complained about once, and so is a file that
/// stays away.
pub proof fn a_complaint_is_made_once(store: StoreV, text: Seq<char>)
    ensures
        !store.judged(text, false).complains(text, false),
        store.judged(text, false).last_good == store.last_good,
        store.looked(ReadV::Missing).look(ReadV::Missing) is Idle,
        store.looked(ReadV::Missing).last_good == store.last_good,
{
}

/// An edit that becomes valid is taken over, whatever was complained about
/// before.
pub proof fn a_mended_file_is_taken_over(store: StoreV, broken: Seq<char>, text: Seq<char>)
    requires
        text != store.last_good,
    ensures
        store.judged(broken, false).look(ReadV::Text { text }) == (PollV::Check { text }),
        store.judged(broken, false).judged(text, true) == (StoreV {
            last_good: text,
            conflict: None,
        }),
{
}

/// The name of the file that a process writes before it puts it in place.
pub open spec fn tmp_name_of(name: Seq<char>, pid: u64) -> Seq<char> {
    name + ".tmp-"@ + text::dec(pid as nat)
}

/// The name of the file that a process writes before it puts it in place.
pub fn tmp_name(name: &str, pid: u32) -> (r: String)
    ensures
        r@ == tmp_name_of(name@, pid as u64),
{
    let mut out = name.to_owned();
    out.append(".tmp-");
    append_number(&mut out, pid as u64);
    out
}

/// The name of the lock file.
pub fn lock_name(name: &str) -> (r: String)
    ensures
        r@ == name@ + ".lock"@,
{
    let mut out = name.to_owned();
    out.append(".lock");
    out
}

/// Is that a file that a crashed process left behind?
pub open spec fn left_over(name: Seq<char>, candidate: Seq<char>) -> bool {
    (name + ".tmp-"@).is_prefix_of(candidate)
}

/// Is that a file that a crashed process left behind?
pub fn is_stale_tmp(name: &str, candidate: &str) -> (r: bool)
    ensures
        r == left_over(name@, candidate@),
{
    let mut prefix = name.to_owned();
    prefix.append(".tmp-");
    let n: usize = prefix.as_str().unicode_len();
    if candidate.unicode_len() < n {
        return false;
    }
    let head = candidate.substring_char(0, n);
    assert(head@ =~= candidate@.take(n as int));
    same_text(head, prefix.as_str())
}

/// The file that a process writes is one that is swept after a crash.
pub proof fn what_is_written_is_swept(name: Seq<char>, pid: u64)
    ensures
        left_over(name, tmp_name_of(name, pid)),
{
    assert(tmp_name_of(name, pid).take((name + ".tmp-"@).len() as int) =~= name + ".tmp-"@);
}

/// The number that decimal digits spell; none where there is another
/// character, or no digit.
pub open spec fn number_in(t: Seq<char>) -> Option<nat>
    decreases t.len(),
{
    if t.len() == 0 {
        None
    } else if !('0' <= t.last() <= '9') {
        None
    } else if t.len() == 1 {
        Some((t.last() as nat - '0' as nat) as nat)
    } else {
        match number_in(t.drop_last()) {
            Some(n) => Some(10 * n + (t.last() as nat - '0' as nat) as nat),
            None => None,
        }
    }
}

/// The process that a lock file names.
pub open spec fn pid_in(holder: Seq<char>) -> Option<u32> {
    let t = chat::trimmed(holder);
    let digits = if t.len() > 0 && t[0] == '+' {
        t.skip(1)
    } else {
        t
    };
    match number_in(digits) {
        Some(n) => if n <= u32::MAX {
            Some(n as u32)
        } else {
            None
        },
        None => None,
    }
}

/// A number whose beginning is no number, or too large a one.
proof fn lemma_number_front(t: Seq<char>, n: int)
    requires
        0 < n <= t.len(),
    ensures
        number_in(t.take(n)) is None ==> number_in(t) is None,
        number_in(t) is Some ==> number_in(t.take(n)) is Some && number_in(t.take(n))->0
            <= number_in(t)->0,
    decreases t.len(),
{
    if n == t.len() {
        assert(t.take(n) =~= t);
    } else {
        assert(t.drop_last().take(n) =~= t.take(n));
        lemma_number_front(t.drop_last(), n);
    }
}

/// The process that a lock file names, if it names one.
pub fn holder_pid(holder: &str) -> (r: Option<u32>)
    ensures
        r == pid_in(holder@),
{
    let t = trim(holder);
    let n: usize = t.as_str().unicode_len();
    let start: usize = if n > 0 && t.as_str().get_char(0) == '+' {
        1
    } else {
        0
    };
    let ghost digits = if start == 1 {
        t@.skip(1)
    } else {
        t@
    };
    if start == n {
        return None;
    }
    let mut value: u64 = 0;
    let mut i: usize = start;
    while i < n
        invariant
            start <= i <= n,
            start <= 1,
            start < n,
            n == t@.len(),
            digits == (if start == 1 {
                t@.skip(1)
            } else {
                t@
            }),
            i == start ==> value == 0,
            i > start ==> number_in(digits.take(i - start)) == Some(value as nat),
            value <= u32::MAX,
            pid_in(holder@) == (match number_in(digits) {
                Some(n) => if n <= u32::MAX {
                    Some(n as u32)
                } else {
                    None
                },
                None => None,
            }),
        decreases n - i,
    {
        let c = t.as_str().get_char(i);
        proof {
            let more = digits.take(i + 1 - start);
            assert(more.last() == c);
            assert(more.drop_last() =~= digits.take(i - start));
            lemma_number_front(digits, i + 1 - start);
        }
        if c < '0' || c > '9' {
            return None;
        }
        value = value * 10 + (c as u64 - '0' as u64);
        if value > u32::MAX as u64 {
            return None;
        }
        i = i + 1;
    }
    assert(digits.take(i - start) =~= digits);
    Some(value as u32)
}

/// What a number's decimal digits spell is that number, and they are digits.
proof fn lemma_dec_spells(n: nat)
    ensures
        number_in(text::dec(n)) == Some(n),
        text::dec(n).len() > 0,
        forall|i: int| 0 <= i < text::dec(n).len() ==> '0' <= #[trigger] text::dec(n)[i] <= '9',
    decreases n,
{
    let t = text::dec(n);
    if n < 10 {
        assert(t.last() == text::digit_char(n));
    } else {
        lemma_dec_spells(n / 10);
        assert(t.drop_last() =~= text::dec(n / 10));
        assert(t.last() == text::digit_char(n % 10));
        assert forall|i: int| 0 <= i < t.len() implies '0' <= #[trigger] t[i] <= '9' by {
            if i < t.len() - 1 {
                assert(t[i] == text::dec(n / 10)[i]);
            }
        }
    }
}

/// A lock that names its holder by number names that process.
pub proof fn a_lock_names_its_holder(pid: u32)
    ensures
        pid_in(text::dec(pid as nat)) == Some(pid),
{
    let t = text::dec(pid as nat);
    lemma_dec_spells(pid as nat);
    assert('0' <= t[0] <= '9');
    assert('0' <= t[t.len() - 1] <= '9');
    assert(chat::trimmed(t) == t);
}

/// What a refused start says.
pub open spec fn lock_refusal(holder: Seq<char>, path: Seq<char>, lock: Seq<char>) -> Seq<char> {
    "another moltd (pid "@ + chat::trimmed(holder) + ") already runs on "@ + path
        + " — two nodes must not share one config ("@ + lock + ")"@
}

/// What to do about a lock file that is there: its holder, where it runs,
/// keeps a second node from starting; any other lock is swept.
pub open spec fn lock_verdict(
    holder: Seq<char>,
    alive: bool,
    path: Seq<char>,
    lock: Seq<char>,
) -> LockV {
    if pid_in(holder) is Some && alive {
        LockV::Refuse { message: lock_refusal(holder, path, lock) }
    } else {
        LockV::Sweep
    }
}

/// What to do about a lock file that is there. `alive` says whether the process
/// that it names runs.
pub fn held_lock(holder: &str, alive: bool, path: &str, lock: &str) -> (r: LockStep)
    ensures
        r.deep_view() == lock_verdict(holder@, alive, path@, lock@),
{
    if holder_pid(holder).is_none() || !alive {
        return LockStep::Sweep;
    }
    let mut message = "another moltd (pid ".to_owned();
    let who = trim(holder);
    message.append(who.as_str());
    message.append(") already runs on ");
    message.append(path);
    message.append(" — two nodes must not share one config (");
    message.append(lock);
    message.append(")");
    LockStep::Refuse { message }
}

/// Each setting stands under its own name, in the file as in the session.
pub proof fn a_setting_keeps_its_name(
    session: SessionV,
    file: SettingsV,
    lang: Seq<char>,
    theme: Seq<char>,
)
    ensures
        ({
            let f = file_of(session, lang, theme);
            &&& f.headless == session.headless
            &&& f.workspace_dir == session.workspace_dir
            &&& f.s3_backup == session.s3_backup
            &&& f.s3_endpoint == session.s3_endpoint
            &&& f.s3_access_key == session.s3_access_key
            &&& f.s3_secret_key == session.s3_secret_key
            &&& f.s3_bucket == session.s3_bucket
            &&& f.s3_interval_min == session.s3_interval_min
            &&& f.s3_keep_copies == session.s3_keep_copies
            &&& f.sound_message == session.sound_message
            &&& f.sound_vote == session.sound_vote
            &&& f.read_receipts == session.read_receipts
            &&& f.anonymity == session.anonymity
            &&& f.tor_mode == session.tor_mode
            &&& f.tor_port == session.tor_port
            &&& f.smp_server == session.smp_server
            &&& f.smp_url == session.smp_url
            &&& f.smp_urls == session.smp_urls
            &&& f.download_dir == session.download_dir
            &&& f.mcp_port == session.mcp_port
            &&& f.mcp_allow == session.mcp_allow
            &&& f.mcp_token == session.mcp_token
            &&& f.lang == lang
            &&& f.theme == theme
        }),
        ({
            let t = session_of(file);
            &&& t.headless == file.headless
            &&& t.workspace_dir == file.workspace_dir
            &&& t.s3_backup == file.s3_backup
            &&& t.s3_endpoint == file.s3_endpoint
            &&& t.s3_access_key == file.s3_access_key
            &&& t.s3_secret_key == file.s3_secret_key
            &&& t.s3_bucket == file.s3_bucket
            &&& t.s3_interval_min == file.s3_interval_min
            &&& t.s3_keep_copies == file.s3_keep_copies
            &&& t.sound_message == file.sound_message
            &&& t.sound_vote == file.sound_vote
            &&& t.read_receipts == file.read_receipts
            &&& t.anonymity == file.anonymity
            &&& t.tor_mode == file.tor_mode
            &&& t.tor_port == file.tor_port
            &&& t.smp_server == file.smp_server
            &&& t.smp_url == file.smp_url
            &&& t.smp_urls == file.smp_urls
            &&& t.download_dir == file.download_dir
            &&& t.mcp_port == file.mcp_port
            &&& t.mcp_allow == file.mcp_allow
            &&& t.mcp_token == file.mcp_token
        }),
{
}

/// A burst without a further write keeps the settings it began with.
pub proof fn a_burst_without_a_write_keeps_its_settings(
    settings: SettingsV,
    notify: bool,
    rest: Seq<RequestV>,
)
    requires
        forall|k: int| 0 <= k < rest.len() ==> !(#[trigger] rest[k] is Persist),
    ensures
        burst(settings, notify, rest).settings == settings,
        burst(settings, notify, rest).notify == notify,
        burst(settings, notify, rest).deferred == rest,
    decreases rest.len(),
{
    if rest.len() > 0 {
        let front = rest.drop_last();
        assert forall|k: int| 0 <= k < front.len() implies !(#[trigger] front[k] is Persist) by {
            assert(front[k] == rest[k]);
        }
        a_burst_without_a_write_keeps_its_settings(settings, notify, front);
        assert(!(rest[rest.len() - 1] is Persist));
        assert(rest =~= front.push(rest.last()));
    }
}

/// New settings are written into what is on disk; where there is no file, into
/// the last good text; and where the file could not be read, not at all. A
/// write that held is the last good text from then on, clears every complaint,
/// and is told where that was asked for.
pub proof fn a_write_goes_into_what_is_on_disk(
    store: StoreV,
    text: Seq<char>,
    why: Seq<char>,
    notify: bool,
)
    ensures
        store.base(ReadV::Text { text }) == Some(text),
        store.base(ReadV::Missing) == Some(store.last_good),
        store.base(ReadV::Failed { why }) is None,
        store.written(OutcomeV::Written { text }).last_good == text,
        store.written(OutcomeV::Written { text }).conflict is None,
        store.write_notice(OutcomeV::Written { text }, notify) == (if notify {
            Some("saved"@)
        } else {
            None
        }),
        store.write_notice(OutcomeV::WriteFailed { why }, notify) == Some("save-failed: "@ + why),
{
}

/// A look at the file finds news exactly where it holds another text than the
/// last good one; a missing file is complained about unless it already was, and
/// one that could not be read is passed over. A rejected text is complained
/// about unless it already was.
pub proof fn a_look_finds_what_is_new(store: StoreV, text: Seq<char>, why: Seq<char>)
    ensures
        text != store.last_good ==> store.look(ReadV::Text { text }) == (PollV::Check { text }),
        text == store.last_good ==> store.look(ReadV::Text { text }) is Idle,
        store.look(ReadV::Failed { why }) is Idle,
        store.look(ReadV::Missing) is Complain <==> store.conflict != Some("<missing>"@),
        store.looked(ReadV::Text { text }) == store,
        store.looked(ReadV::Failed { why }) == store,
        store.complains(text, false) <==> store.conflict != Some(text),
        !store.complains(text, true),
        store.judged(text, true) == (StoreV { last_good: text, conflict: None }),
        store.judged(text, false) == (StoreV { conflict: Some(text), ..store }),
{
}

/// A second node is kept from starting exactly where the lock names a process
/// and that process runs; any other lock is swept.
pub proof fn only_a_running_holder_keeps_the_lock(
    pid: u32,
    alive: bool,
    path: Seq<char>,
    lock: Seq<char>,
)
    ensures
        lock_verdict(text::dec(pid as nat), alive, path, lock) is Refuse <==> alive,
        lock_verdict(text::dec(pid as nat), alive, path, lock) is Sweep <==> !alive,
        forall|holder: Seq<char>|
            #[trigger] pid_in(holder) is None ==> lock_verdict(holder, alive, path, lock) is Sweep,
{
    a_lock_names_its_holder(pid);
}

/// A temporary file is found again by its name, whoever wrote it, and nothing
/// is taken for one that does not carry the name and the mark behind it.
pub proof fn a_left_over_file_carries_the_mark(name: Seq<char>, pid: u64, candidate: Seq<char>)
    ensures
        left_over(name, tmp_name_of(name, pid)),
        left_over(name, candidate) <==> exists|rest: Seq<char>|
            candidate == name + ".tmp-"@ + rest,
        tmp_name_of(name, pid).skip((name + ".tmp-"@).len() as int) == text::dec(pid as nat),
{
    let mark = name + ".tmp-"@;
    assert(mark.is_prefix_of(tmp_name_of(name, pid))) by {
        assert(tmp_name_of(name, pid).subrange(0, mark.len() as int) =~= mark);
    }
    assert(tmp_name_of(name, pid).skip(mark.len() as int) =~= text::dec(pid as nat));
    if left_over(name, candidate) {
        let rest = candidate.skip(mark.len() as int);
        assert(candidate =~= mark + rest);
    }
    if exists|rest: Seq<char>| candidate == name + ".tmp-"@ + rest {
        let rest = choose|rest: Seq<char>| candidate == name + ".tmp-"@ + rest;
        assert(candidate.subrange(0, mark.len() as int) =~= mark);
    }
}

} // verus!
