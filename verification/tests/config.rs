//! The owner of the configuration file.

use molt_engine::config_store::{
    coalesce, file_settings, held_lock, holder_pid, is_stale_tmp, lock_name, session_settings,
    tmp_name, ConfigStore, FileRead, LockStep, PollStep, SessionSettings, Settings, StoreRequest,
    WriteOutcome,
};

fn settings(lang: &str, mcp_port: u16) -> Settings {
    Settings {
        headless: true,
        workspace_dir: "/w".to_string(),
        s3_backup: true,
        s3_endpoint: "e".to_string(),
        s3_access_key: "a".to_string(),
        s3_secret_key: "s".to_string(),
        s3_bucket: "b".to_string(),
        s3_interval_min: 15,
        s3_keep_copies: 3,
        sound_message: "m".to_string(),
        sound_vote: "v".to_string(),
        read_receipts: true,
        anonymity: "none".to_string(),
        tor_mode: "off".to_string(),
        tor_port: 9150,
        smp_server: "x".to_string(),
        smp_url: "u".to_string(),
        smp_urls: vec!["u1".to_string(), "u2".to_string()],
        download_dir: "/d".to_string(),
        mcp_port,
        mcp_allow: vec!["127.0.0.1".to_string()],
        mcp_token: "t".to_string(),
        lang: lang.to_string(),
        theme: "dark".to_string(),
    }
}

fn store(text: &str) -> ConfigStore {
    ConfigStore { last_good: text.to_string(), conflict: None }
}

fn read(text: &str) -> FileRead {
    FileRead::Text { text: text.to_string() }
}

#[test]
fn our_own_write_does_not_echo_back_as_reload() {
    let mut st = store("port = 9050");
    let written = WriteOutcome::Written { text: "port = 9150".to_string() };
    assert_eq!(st.wrote(&written, true).as_deref(), Some("saved"));
    // the watcher looks at what was just written: it must NOT reload
    assert_eq!(
        st.poll(read("port = 9150")),
        PollStep::Idle,
        "self-write echoed back as a reload"
    );
    assert_eq!(st.wrote(&written, false), None, "a silent write says nothing");
}

#[test]
fn external_edit_reloads_invalid_conflicts_then_recovers() {
    let mut st = store("old");
    // an external valid edit is taken over
    assert_eq!(st.poll(read("edited")), PollStep::Check { text: "edited".to_string() });
    assert!(!st.judge("edited".to_string(), true));
    assert_eq!(st.last_good, "edited");
    assert_eq!(st.poll(read("edited")), PollStep::Idle);

    // an external broken edit is a conflict, announced once
    let broken = "this is not::: toml";
    assert_eq!(st.poll(read(broken)), PollStep::Check { text: broken.to_string() });
    assert!(st.judge(broken.to_string(), false));
    assert_eq!(st.last_good, "edited", "session must keep last good");
    assert_eq!(st.poll(read(broken)), PollStep::Check { text: broken.to_string() });
    assert!(!st.judge(broken.to_string(), false), "not announced again");

    // the user mends the file
    assert_eq!(st.poll(read("mended")), PollStep::Check { text: "mended".to_string() });
    assert!(!st.judge("mended".to_string(), true));
    assert_eq!(st, store("mended"));
}

#[test]
fn valid_toml_with_invalid_values_is_a_conflict() {
    let mut st = store("network = \"none\"");
    let broken = "network = \"bogus\"";
    assert_eq!(st.poll(read(broken)), PollStep::Check { text: broken.to_string() });
    // well-formed, but the engine's validation rejects it
    assert!(st.judge(broken.to_string(), false));
    assert_eq!(st.last_good, "network = \"none\"", "session must keep last good");
}

#[test]
fn a_missing_file_is_announced_once() {
    let mut st = store("text");
    assert_eq!(st.poll(FileRead::Missing), PollStep::Complain);
    assert_eq!(st.poll(FileRead::Missing), PollStep::Idle);
    assert_eq!(st.poll(FileRead::Failed { why: "busy".to_string() }), PollStep::Idle);
    assert_eq!(st.last_good, "text");
    // it is written anew from the last good text
    assert_eq!(st.write_base(&FileRead::Missing).as_deref(), Some("text"));
    assert_eq!(st.write_base(&read("on disk")).as_deref(), Some("on disk"));
    assert_eq!(st.write_base(&FileRead::Failed { why: "busy".to_string() }), None);
}

#[test]
fn a_failed_write_says_why() {
    let mut st = store("text");
    let cases = [
        (
            WriteOutcome::ReadFailed { path: "/c".to_string(), why: "busy".to_string() },
            "save-failed: reading /c: busy",
        ),
        (
            WriteOutcome::Invalid,
            "save-failed: config.toml on disk is invalid; fix it or run --repair-config",
        ),
        (WriteOutcome::WriteFailed { why: "full".to_string() }, "save-failed: full"),
    ];
    for (outcome, said) in cases {
        assert_eq!(st.wrote(&outcome, false).as_deref(), Some(said));
    }
    assert_eq!(st, store("text"));
}

#[test]
fn a_second_node_on_the_same_config_fails_fast() {
    let step = held_lock(" 4711\n", true, "/etc/molt.toml", "/etc/molt.toml.lock");
    let LockStep::Refuse { message } = step else {
        panic!("second node must be refused");
    };
    assert_eq!(
        message,
        "another moltd (pid 4711) already runs on /etc/molt.toml — two nodes must not share one \
         config (/etc/molt.toml.lock)"
    );
    assert!(message.contains("already runs"));
    assert!(message.contains("4711"), "error must name the holding pid");
    // a lock that is left over is swept
    assert_eq!(held_lock("4711", false, "/c", "/l"), LockStep::Sweep);
    assert_eq!(held_lock("no number", true, "/c", "/l"), LockStep::Sweep);
}

#[test]
fn a_lock_names_its_holder() {
    assert_eq!(holder_pid("4294967295"), Some(u32::MAX));
    assert_eq!(holder_pid("4294967296"), None);
    assert_eq!(holder_pid("+7"), Some(7));
    assert_eq!(holder_pid("+"), None);
    assert_eq!(holder_pid(""), None);
    assert_eq!(holder_pid("-7"), None);
    assert_eq!(holder_pid("007\n"), Some(7));
}

#[test]
fn a_burst_is_one_write() {
    let rest = vec![
        StoreRequest::PollNow { ack: 1 },
        StoreRequest::Persist { settings: settings("fr", 2), notify: true },
        StoreRequest::Persist { settings: settings("en", 3), notify: false },
        StoreRequest::Shutdown { ack: 2 },
    ];
    let one = coalesce(settings("de", 1), false, &rest);
    assert_eq!(one.settings, settings("en", 3), "the newest settings win");
    assert!(one.notify, "one of them asked for a notice");
    assert_eq!(
        one.deferred,
        vec![StoreRequest::PollNow { ack: 1 }, StoreRequest::Shutdown { ack: 2 }]
    );
    let alone = coalesce(settings("de", 1), false, &Vec::new());
    assert_eq!(alone.settings, settings("de", 1));
    assert!(!alone.notify && alone.deferred.is_empty());
}

#[test]
fn settings_survive_the_file() {
    let file = settings("de", 5555);
    let session: SessionSettings = session_settings(&file);
    assert_eq!(session.mcp_port, 5555);
    assert_eq!(file_settings(&session, "de", "dark"), file);
    assert_eq!(session_settings(&file_settings(&session, "fr", "light")), session);
}

#[test]
fn what_a_crash_left_is_swept() {
    assert_eq!(tmp_name("molt.toml", 42), "molt.toml.tmp-42");
    assert_eq!(lock_name("molt.toml"), "molt.toml.lock");
    assert!(is_stale_tmp("molt.toml", "molt.toml.tmp-42"));
    assert!(is_stale_tmp("molt.toml", "molt.toml.tmp-"));
    assert!(!is_stale_tmp("molt.toml", "molt.toml.lock"));
    assert!(!is_stale_tmp("molt.toml", "other.toml.tmp-42"));
}
