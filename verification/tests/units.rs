//! The small parts.
#![allow(dead_code, unused_imports)]

use molt_engine::canonical::{
    approval_bytes, checkpoint_canonical_bytes, restore_consent_bytes, seat_proof_bytes,
    GENESIS_PREV,
};
use molt_engine::checkpoint::collect_run;
use molt_engine::fold::{checkpoint_state, checkpoint_state_hash, fold_one, fold_state};
use molt_engine::identity::{
    content_hash, identity_public, identity_sign, identity_verify, republic_id, SigningKey,
};
use molt_engine::membership::membership_payload;
use molt_engine::model::{
    Anchor, AppliedEntry, AppliedGroup, ChainBlock, ChainChange, CheckpointState, MemberIdentity,
    MembershipOp, RelayDeclaration, RosterAttestation, Surface,
};
use molt_engine::payload::{Field, Payload};
use molt_engine::signers::{block_hash, ChainHead};
use molt_engine::state::{
    Effect, Event, HeightHash, PendingRecovery, ProposalRecord, ProposalState,
    RecoverProgressReport, ReplicaState, State, WorkspaceEvent,
};
use molt_engine::table::Table;
use molt_engine::walk::{
    sealed_roster_from_blob, sealed_roster_from_genesis, verify_chain, verify_served,
    verify_suffix_chain,
};

use molt_engine::canonical::{block_link_bytes, founding_bytes, same_value};
use molt_engine::fold::{applied_lww_slot, sort_ids};
use molt_engine::history::working_anchors;
use molt_engine::projection::genesis_chain;
use molt_engine::rekey::nostr_rekey;
use molt_engine::relays::add_names;
use molt_engine::text::{add_name, has_name};
use molt_engine::votes::{count_votes, reach_quorum};
use molt_engine::wiki_export::{bundle_from_chain, compare_tree};
use molt_engine::wiki_tree::{WikiFile, WikiTree};

/// Builds real threshold-signed chains: the founding is sealed by everybody,
/// later blocks by the named members.
#[derive(Clone)]
struct Builder {
    republic_id: String,
    keys: Vec<(String, SigningKey)>,
    blocks: Vec<ChainBlock>,
    head_hash: String,
}

impl Builder {
    fn new(members: &[&str], rule_m: u8) -> Builder {
        Builder::new_on_relays(members, rule_m, Vec::new())
    }

    fn new_on_relays(members: &[&str], rule_m: u8, relays: Vec<String>) -> Builder {
        let mut keys: Vec<(String, SigningKey)> = Vec::new();
        let mut identities: Vec<MemberIdentity> = Vec::new();
        for (i, m) in members.iter().enumerate() {
            let sk = SigningKey { secret: [u8::try_from(i + 1).unwrap_or(1); 32] };
            identities.push(MemberIdentity {
                member: (*m).to_string(),
                identity_pk: identity_public(&sk),
                nostr_pk: "cc".repeat(32),
            });
            keys.push(((*m).to_string(), sk));
        }
        let rule_n = u8::try_from(members.len()).expect("small roster");
        let republic_id = republic_id("Chess Club", rule_m, rule_n, &identities);
        let change = ChainChange::Genesis {
            name: "Chess Club".to_string(),
            republic_id: republic_id.clone(),
            rule_m,
            rule_n,
            identities,
            agenda: "play chess".to_string(),
            features: None,
            relays,
        };
        let mut b = Builder {
            republic_id,
            keys,
            blocks: Vec::new(),
            head_hash: GENESIS_PREV.to_string(),
        };
        let block = b.seal(0, change, members);
        b.push(block);
        b
    }

    /// Signs `change` at `height` with each named member.
    fn seal(&self, height: u64, change: ChainChange, signers: &[&str]) -> ChainBlock {
        let bytes = approval_bytes(&self.republic_id, height, &change);
        let sigs = signers
            .iter()
            .map(|name| RosterAttestation {
                member: (*name).to_string(),
                sig: identity_sign(self.key(name), &bytes),
            })
            .collect();
        ChainBlock { height, prev: self.head_hash.clone(), change, sigs }
    }

    fn push(&mut self, block: ChainBlock) {
        self.head_hash = block_hash(&self.republic_id, &block);
        self.blocks.push(block);
    }

    fn next_height(&self) -> u64 {
        u64::try_from(self.blocks.len()).expect("small chain")
    }

    fn commit(&mut self, change: ChainChange, signers: &[&str]) {
        let block = self.seal(self.next_height(), change, signers);
        self.push(block);
    }

    /// Commits a note signed by `signers` at the next height.
    fn commit_applied(&mut self, proposal_id: u64, signers: &[&str]) {
        self.commit(
            ChainChange::Applied {
                proposal_id,
                surface: Surface::Memory,
                payload: note(proposal_id),
            },
            signers,
        );
    }

    /// Commits an edit of the organization.
    fn commit_org(&mut self, proposal_id: u64, op: &str, value: &str, signers: &[&str]) {
        self.commit(
            ChainChange::Applied {
                proposal_id,
                surface: Surface::Organization,
                payload: edit(op, value),
            },
            signers,
        );
    }

    /// Commits a wiki patch that adds a document.
    fn commit_wiki(&mut self, proposal_id: u64, path: &str, body: &str, signers: &[&str]) {
        self.commit(
            ChainChange::Applied {
                proposal_id,
                surface: Surface::Memory,
                payload: edit("wiki_patch", &new_file_patch(path, body)),
            },
            signers,
        );
    }

    /// Commits a returned seat that names a new transport key.
    fn commit_restored(&mut self, member: &str, nostr_pk: &str, signers: &[&str]) {
        let change = restored(member, &self.pk(member), Some(nostr_pk), None);
        self.commit(change, signers);
    }

    fn key(&self, member: &str) -> &SigningKey {
        &self.keys.iter().find(|(m, _)| m == member).expect("known member").1
    }

    fn pk(&self, member: &str) -> String {
        identity_public(self.key(member))
    }
}

fn text(t: &str) -> Payload {
    Payload::Text(t.to_string())
}

fn object(fields: Vec<(&str, Payload)>) -> Payload {
    Payload::Object(
        fields
            .into_iter()
            .map(|(name, value)| Field { name: name.to_string(), value })
            .collect(),
    )
}

fn note(id: u64) -> Payload {
    object(vec![("op", text("add_note")), ("id", Payload::Count(id))])
}

fn edit(op: &str, value: &str) -> Payload {
    object(vec![("op", text(op)), ("value", text(value))])
}

fn new_file_patch(path: &str, body: &str) -> String {
    let lines: Vec<&str> = body.split('\n').collect();
    let mut patch = format!(
        "diff --git a/{path} b/{path}\nnew file mode 100644\n--- /dev/null\n+++ b/{path}\n@@ -0,0 +1,{} @@\n",
        lines.len()
    );
    for l in lines {
        patch.push('+');
        patch.push_str(l);
        patch.push('\n');
    }
    patch
}

fn restored(
    member: &str,
    identity_pk: &str,
    nostr_pk: Option<&str>,
    consent: Option<String>,
) -> ChainChange {
    ChainChange::Membership {
        op: MembershipOp::Restored,
        member: member.to_string(),
        identity_pk: identity_pk.to_string(),
        nostr_pk: nostr_pk.map(str::to_string),
        relays: Vec::new(),
        consent,
    }
}

/// A seat's state that roots in the founding of `b` and holds `chain`.
fn peer_of(member: &str, roster: &[&str], b: &Builder, chain: Vec<ChainBlock>) -> State {
    let mut peer = State::new();
    peer.now = 1_751_000_000;
    peer.replica = Some(ReplicaState {
        name: "Chess Club".to_string(),
        member: member.to_string(),
        roster: roster.iter().map(|m| m.to_string()).collect(),
        rule_m: 2,
        identities: Vec::new(),
        agenda: "play chess".to_string(),
        features: None,
        republic_id: b.republic_id.clone(),
        founded_ts: 0,
    });
    peer.adopt_chain(chain);
    peer.effects.clear();
    peer
}

fn chain_peer(member: &str, b: &Builder, chain: Vec<ChainBlock>) -> State {
    peer_of(member, &["petra", "walter"], b, chain)
}

fn chain_peer_3(member: &str, b: &Builder) -> State {
    peer_of(member, &["petra", "walter", "dora"], b, b.blocks.clone())
}

/// A peer that can also sign.
fn chain_signer(member: &str, b: &Builder, chain: Vec<ChainBlock>) -> State {
    let mut s = chain_peer(member, b, chain);
    s.identity_sk = Some(*b.key(member));
    s
}

/// A chain of exactly `len` blocks.
fn grown_chain(len: usize) -> Builder {
    let mut b = Builder::new(&["petra", "walter"], 2);
    for id in 0..len.saturating_sub(1) {
        b.commit_applied(u64::try_from(id + 100).expect("small id"), &["petra", "walter"]);
    }
    assert_eq!(b.blocks.len(), len);
    b
}

/// A returning member's consent, signed with its own key.
fn consent_for(b: &Builder, member: &str, nostr_pk: &str) -> String {
    identity_sign(
        b.key(member),
        &restore_consent_bytes(&b.republic_id, member, &b.pk(member), nostr_pk),
    )
}

fn height(s: &State) -> u64 {
    s.head.as_ref().expect("head").height
}

/// The signature that a state holds of a member for a proposal.
fn sig_of(s: &State, id: u64, member: &str) -> String {
    s.pending_sigs
        .get(id)
        .expect("pending set")
        .sigs
        .iter()
        .find(|a| a.member == member)
        .expect("signed")
        .sig
        .clone()
}

/// The entries of a surface in a summary.
fn entries_of(groups: &Vec<AppliedGroup>, surface: Surface) -> Vec<AppliedEntry> {
    groups
        .iter()
        .find(|g| g.surface == surface)
        .map(|g| g.entries.clone())
        .unwrap_or_default()
}

/// The approvals and other events that a state asked its host to send.
fn sent(s: &State) -> Vec<WorkspaceEvent> {
    s.effects
        .iter()
        .filter_map(|e| match e {
            Effect::Send { body } => Some(body.clone()),
            _ => None,
        })
        .collect()
}

/// `s` hears a membership proposal.
fn hear_membership(s: &mut State, id: u64, change: ChainChange, canonical_anchor: bool) {
    let ChainChange::Membership { op, member, identity_pk, nostr_pk, relays, consent } = change
    else {
        panic!("a membership change")
    };
    s.receive_membership_proposal(
        id,
        op,
        &member,
        &identity_pk,
        nostr_pk,
        relays,
        consent,
        canonical_anchor,
    );
}


#[test]
fn a_table_is_sorted_and_holds_each_key_once() {
    let mut t: Table<String> = Table::new();
    assert!(t.is_empty());
    for key in [5u64, 1, 3, 5] {
        t.insert(key, format!("v{key}"));
    }
    t.insert(3, "again".to_string());
    assert_eq!(t.len(), 3);
    assert_eq!(t.rows().iter().map(|r| r.key).collect::<Vec<_>>(), vec![1, 3, 5]);
    assert_eq!(t.get(3).map(String::as_str), Some("again"));
    assert_eq!(t.get(4), None);
    t.remove(1);
    t.remove(2);
    assert!(!t.contains_key(1) && t.contains_key(5));
    t.insert(9, String::new());
    t.keep_first(2);
    t.keep_above(3);
    assert_eq!(t.rows().iter().map(|r| r.key).collect::<Vec<_>>(), vec![5]);
}

#[test]
fn names_are_kept_ascending_and_once() {
    let mut names: Vec<String> = Vec::new();
    for n in ["walter", "dora", "walter", "petra"] {
        add_name(&mut names, &n.to_string());
    }
    assert_eq!(names, vec!["dora", "petra", "walter"]);
    assert!(has_name(&names, "petra") && !has_name(&names, "nobody"));
    let mut listed = vec!["memory".to_string()];
    add_names(&mut listed, &vec!["quests".to_string(), "memory".to_string()]);
    assert_eq!(listed, vec!["memory", "quests"], "in order, nothing twice");
}

#[test]
fn ids_are_sorted_with_repeats() {
    assert_eq!(sort_ids(&vec![5, 1, 5, 0, u64::MAX]), vec![0, 1, 5, 5, u64::MAX]);
    assert_eq!(sort_ids(&Vec::new()), Vec::<u64>::new());
}

#[test]
fn what_is_signed_tells_changes_apart() {
    let a = ChainChange::Applied { proposal_id: 1, surface: Surface::Memory, payload: note(1) };
    let b = ChainChange::Applied { proposal_id: 2, surface: Surface::Memory, payload: note(1) };
    let c = ChainChange::Checkpoint { upto: 1, state_hash: String::new() };
    let bytes = |rid: &str, h: u64, x: &ChainChange| approval_bytes(rid, h, x);
    assert_eq!(bytes("r", 1, &a), bytes("r", 1, &a.clone()));
    assert_ne!(bytes("r", 1, &a), bytes("r", 1, &b));
    assert_ne!(bytes("r", 1, &a), bytes("r", 2, &a), "the place is signed too");
    assert_ne!(bytes("r", 1, &a), bytes("q", 1, &a), "and the republic");
    assert_ne!(bytes("r", 1, &a), bytes("r", 1, &c));
    assert!(same_value(&a, &a.clone()) && !same_value(&a, &b));
    // no two texts run into one another
    assert_ne!(
        seat_proof_bytes("ab", "c", "r", "", &Vec::new()),
        seat_proof_bytes("a", "bc", "r", "", &Vec::new())
    );
    assert_ne!(
        restore_consent_bytes("r", "a", "bc", ""),
        restore_consent_bytes("r", "ab", "c", "")
    );
    assert_ne!(
        founding_bytes("n", 1, 2, &Vec::new()),
        founding_bytes("n", 2, 1, &Vec::new())
    );
    let g = Builder::new(&["petra", "walter"], 2);
    let mut other = g.blocks[0].clone();
    other.prev.push('0');
    assert_ne!(
        block_link_bytes(&g.republic_id, &g.blocks[0]),
        block_link_bytes(&g.republic_id, &other)
    );
}

#[test]
fn the_order_of_fields_does_not_matter_to_a_reader() {
    let p = object(vec![("op", text("x")), ("n", Payload::Count(4)), ("op", text("y"))]);
    assert!(p.has_op("x") && !p.has_op("y"), "the first of a name is read");
    assert_eq!(p.count("n"), Some(4));
    assert_eq!(p.text("n"), None);
    assert_eq!(text("x").text("op"), None);
}

#[test]
fn which_entries_share_a_slot() {
    let org = Surface::Organization;
    assert_eq!(applied_lww_slot(org, &edit("set_name", "a")).as_deref(), Some("name"));
    assert_eq!(
        applied_lww_slot(org, &edit("remove_image", "")),
        applied_lww_slot(org, &edit("set_image", "x"))
    );
    assert_eq!(applied_lww_slot(Surface::Memory, &edit("set_name", "a")), None);
    assert_eq!(applied_lww_slot(org, &edit("set_relays", "a")), None, "these accumulate");
    let desc = |m: &str| object(vec![("op", text("set_member_desc")), ("member", text(m))]);
    assert_ne!(applied_lww_slot(org, &desc("a")), applied_lww_slot(org, &desc("b")));
}

#[test]
fn the_lowest_named_voices_seal() {
    let b = Builder::new(&["petra", "walter", "dora"], 2);
    let head = verify_chain(&b.blocks).expect("founded");
    let change = ChainChange::Applied { proposal_id: 1, surface: Surface::Memory, payload: note(1) };
    let bytes = approval_bytes(&b.republic_id, 1, &change);
    let sigs: Vec<RosterAttestation> = ["walter", "petra", "dora"]
        .iter()
        .map(|m| RosterAttestation {
            member: m.to_string(),
            sig: identity_sign(b.key(m), &bytes),
        })
        .collect();
    let votes = count_votes(&head.identities, &bytes, &Vec::new(), &sigs);
    let names = |v: &Vec<RosterAttestation>| {
        v.iter().map(|a| a.member.clone()).collect::<Vec<_>>()
    };
    assert_eq!(names(&votes), vec!["dora", "petra", "walter"]);
    let declined = vec!["petra".to_string()];
    assert_eq!(
        names(&count_votes(&head.identities, &bytes, &declined, &sigs)),
        vec!["dora", "walter"],
        "who declines does not count"
    );
    let quorum = reach_quorum(&change, votes.clone(), 2).expect("reached");
    assert_eq!(names(&quorum), vec!["dora", "petra"]);
    assert!(reach_quorum(&change, votes.clone(), 4).is_none());
    // a consent is a voice, and its member's own signature is not needed
    let back = restored("walter", &b.pk("walter"), None, Some("00".to_string()));
    let quorum = reach_quorum(&back, votes, 3).expect("two and the consent");
    assert_eq!(names(&quorum), vec!["dora", "petra"]);
}

#[test]
fn a_sealed_constitution_founds_its_chain() {
    let b = Builder::new_on_relays(&["petra", "walter"], 2, vec!["wss://a".to_string()]);
    let sealed = sealed_roster_from_genesis(&b.blocks[0]).expect("a constitution");
    assert_eq!(genesis_chain(&sealed), b.blocks);
    assert_eq!(sealed_roster_from_genesis(&b.seal(1, restored("a", "b", None, None), &[])), None);
}

#[test]
fn a_tree_holds_each_path_once_in_order() {
    let file = |path: &str, content: &str| WikiFile {
        path: path.to_string(),
        content: content.to_string(),
    };
    let tree = WikiTree::new()
        .with(file("b.md", "old"))
        .with(file("a/z.md", "Z"))
        .with(file("b.md", "new"))
        .with(file("\u{e9}.md", "E"))
        .with(file("c.md", "C"));
    let paths: Vec<&str> = tree.files().iter().map(|f| f.path.as_str()).collect();
    assert_eq!(paths, vec!["a/z.md", "b.md", "c.md", "\u{e9}.md"]);
    assert_eq!(tree.len(), 4);
    assert_eq!(tree.content("b.md").map(String::as_str), Some("new"));
    assert_eq!(tree.content("d.md"), None);
}

#[test]
fn a_tree_is_compared_with_the_fold() {
    let tree = |files: &[(&str, &str)]| {
        files.iter().fold(WikiTree::new(), |t, (path, content)| {
            t.with(WikiFile { path: path.to_string(), content: content.to_string() })
        })
    };
    let folded = tree(&[("a.md", "A"), ("b.md", "B")]);
    assert_eq!(compare_tree(&folded, &tree(&[("b.md", "B"), ("a.md", "A")])), Ok(()));
    assert_eq!(
        compare_tree(&folded, &tree(&[("a.md", "A")])),
        Err("tree: b.md is missing from the export".to_string())
    );
    assert_eq!(
        compare_tree(&folded, &tree(&[("a.md", "A"), ("b.md", "other")])),
        Err("tree: b.md differs from the folded patches".to_string())
    );
    assert_eq!(
        compare_tree(&folded, &tree(&[("a.md", "A"), ("b.md", "B"), ("c.md", "")])),
        Err("tree: c.md is not in the folded patches".to_string())
    );
    assert_eq!(bundle_from_chain(&Vec::new()), None);
}

#[test]
fn a_rekey_carries_the_exporter_of_the_epoch_it_left() {
    let ring = vec![[7u8; 32], [6u8; 32]];
    let made = || Ok((vec![1u8, 2], vec![3u8]));
    let rekey = nostr_rekey(made(), &ring, 1_759_000_000).expect("the re-key runs");
    assert_eq!(rekey.commit, vec![1, 2]);
    assert_eq!(rekey.welcome, vec![3]);
    assert_eq!(rekey.prev_exporter, [7u8; 32], "the newest one");
    assert_eq!(rekey.stamp, 1_759_000_000);
    assert!(nostr_rekey(made(), &Vec::new(), 1).is_err(), "nobody could open that commit");
    let failed = nostr_rekey(Err("no such leaf".to_string()), &ring, 1);
    assert_eq!(failed.err().as_deref(), Some("no such leaf"));
}

#[test]
fn the_wiki_follows_the_chain() {
    let mut b = Builder::new(&["petra", "walter"], 2);
    let mut s = chain_peer("walter", &b, b.blocks.clone());
    let patch = object(vec![("op", text("wiki_patch")), ("value", text(""))]);
    s.receive_proposed(900, Surface::Memory, patch, "petra");
    assert!(s.effects.contains(&Effect::WikiMoved { by: None, open: vec![900] }));
    s.wiki_superseded(&Vec::new());
    s.effects.clear();
    b.commit_applied(1, &["petra", "walter"]);
    s.receive_block(b.blocks[1].clone());
    let moved: Vec<Effect> = s
        .effects
        .iter()
        .filter(|e| matches!(e, Effect::WikiMoved { .. } | Effect::AppliedReset))
        .cloned()
        .collect();
    let ChainChange::Applied { payload, .. } = &b.blocks[1].change else {
        panic!("an applied entry")
    };
    assert_eq!(
        moved,
        vec![Effect::WikiMoved { by: Some(payload.clone()), open: vec![900] }],
        "one entry moved it"
    );
    s.effects.clear();
    s.apply_chain_to_state();
    assert_eq!(s.effects[0], Effect::AppliedReset, "a rebuild may lose entries");
    assert!(s.effects.contains(&Effect::WikiMoved { by: None, open: vec![900] }));
    s.wiki_superseded(&vec![900]);
    s.effects.clear();
    s.apply_chain_to_state();
    assert!(
        !s.effects.iter().any(|e| matches!(e, Effect::WikiMoved { .. })),
        "without open patches there is nothing to ask"
    );
}

#[test]
fn the_last_anchor_of_a_seat_is_the_working_one() {
    let mut b = Builder::new(&["petra", "walter", "dora"], 2);
    let back = |pk: &str| restored("dora", &b.pk("dora"), Some(pk), None);
    let changes = [back("aa"), back("bb"), back("")];
    for (i, change) in changes.into_iter().enumerate() {
        let block = b.seal(i as u64 + 1, change, &["petra", "walter"]);
        b.blocks.push(block);
    }
    assert_eq!(
        working_anchors(&b.blocks),
        vec![Anchor { member: "dora".to_string(), nostr_pk: "bb".to_string() }],
        "an empty key leaves the one before"
    );
}

#[test]
fn a_seat_that_stops_signing_is_named() {
    let mut b = Builder::new(&["petra", "walter", "dora"], 2);
    for id in 1..=40u64 {
        b.commit_applied(id, &["petra", "walter"]);
    }
    let mut s = chain_peer("walter", &b, b.blocks.clone());
    let stale = s.stale_signers();
    assert_eq!(stale.len(), 1);
    assert_eq!((stale[0].member.as_str(), stale[0].last_signed_height), ("dora", 0));
    // a signature that was verified here counts, sealed or not
    s.note_signer("dora", 40);
    s.note_signer("dora", 3);
    assert!(s.stale_signers().is_empty(), "the highest one counts");
}
