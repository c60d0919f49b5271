#![allow(dead_code, unused_imports)]

use molt_engine::canonical::{
    approval_bytes, checkpoint_canonical_bytes, restore_consent_bytes, seat_proof_bytes,
    GENESIS_PREV,
};
use molt_engine::checkpoint::collect_run;
use molt_engine::fold::{checkpoint_state, checkpoint_state_hash, fold_one, fold_state};
use molt_engine::identity::{
    content_hash, identity_public, identity_sign, identity_verify, republic_id, SigningKey,
};
use molt_engine::membership::membership_payload;
use molt_engine::model::{
    Anchor, AppliedEntry, AppliedGroup, ChainBlock, ChainChange, CheckpointState, MemberIdentity,
    MembershipOp, RelayDeclaration, RosterAttestation, Surface,
};
use molt_engine::payload::{Field, Payload};
use molt_engine::signers::{block_hash, ChainHead};
use molt_engine::state::{
    Effect, Event, HeightHash, PendingRecovery, ProposalRecord, ProposalState,
    RecoverProgressReport, ReplicaState, State, WorkspaceEvent,
};
use molt_engine::table::Table;
use molt_engine::walk::{
    sealed_roster_from_blob, sealed_roster_from_genesis, verify_chain, verify_served,
    verify_suffix_chain,
};
use molt_engine::wiki_export::{
    bundle_from_chain, verify_bundle, verify_wiki_export, verify_wiki_export_by, WikiExportBundle,
    WikiExportReport,
};
use molt_engine::wiki_tree::{WikiFile, WikiTree};

/// Builds real threshold-signed chains: the founding is sealed by everybody,
/// later blocks by the named members.
#[derive(Clone)]
struct Builder {
    republic_id: String,
    keys: Vec<(String, SigningKey)>,
    blocks: Vec<ChainBlock>,
    head_hash: String,
}

impl Builder {
    fn new(members: &[&str], rule_m: u8) -> Builder {
        Builder::new_on_relays(members, rule_m, Vec::new())
    }

    fn new_on_relays(members: &[&str], rule_m: u8, relays: Vec<String>) -> Builder {
        let mut keys: Vec<(String, SigningKey)> = Vec::new();
        let mut identities: Vec<MemberIdentity> = Vec::new();
        for (i, m) in members.iter().enumerate() {
            let sk = SigningKey { secret: [u8::try_from(i + 1).unwrap_or(1); 32] };
            identities.push(MemberIdentity {
                member: (*m).to_string(),
                identity_pk: identity_public(&sk),
                nostr_pk: "cc".repeat(32),
            });
            keys.push(((*m).to_string(), sk));
        }
        let rule_n = u8::try_from(members.len()).expect("small roster");
        let republic_id = republic_id("Chess Club", rule_m, rule_n, &identities);
        let change = ChainChange::Genesis {
            name: "Chess Club".to_string(),
            republic_id: republic_id.clone(),
            rule_m,
            rule_n,
            identities,
            agenda: "play chess".to_string(),
            features: None,
            relays,
        };
        let mut b = Builder {
            republic_id,
            keys,
            blocks: Vec::new(),
            head_hash: GENESIS_PREV.to_string(),
        };
        let block = b.seal(0, change, members);
        b.push(block);
        b
    }

    /// Signs `change` at `height` with each named member.
    fn seal(&self, height: u64, change: ChainChange, signers: &[&str]) -> ChainBlock {
        let bytes = approval_bytes(&self.republic_id, height, &change);
        let sigs = signers
            .iter()
            .map(|name| RosterAttestation {
                member: (*name).to_string(),
                sig: identity_sign(self.key(name), &bytes),
            })
            .collect();
        ChainBlock { height, prev: self.head_hash.clone(), change, sigs }
    }

    fn push(&mut self, block: ChainBlock) {
        self.head_hash = block_hash(&self.republic_id, &block);
        self.blocks.push(block);
    }

    fn next_height(&self) -> u64 {
        u64::try_from(self.blocks.len()).expect("small chain")
    }

    fn commit(&mut self, change: ChainChange, signers: &[&str]) {
        let block = self.seal(self.next_height(), change, signers);
        self.push(block);
    }

    /// Commits a note signed by `signers` at the next height.
    fn commit_applied(&mut self, proposal_id: u64, signers: &[&str]) {
        self.commit(
            ChainChange::Applied {
                proposal_id,
                surface: Surface::Memory,
                payload: note(proposal_id),
            },
            signers,
        );
    }

    /// Commits an edit of the organization.
    fn commit_org(&mut self, proposal_id: u64, op: &str, value: &str, signers: &[&str]) {
        self.commit(
            ChainChange::Applied {
                proposal_id,
                surface: Surface::Organization,
                payload: edit(op, value),
            },
            signers,
        );
    }

    /// Commits a wiki patch that adds a document.
    fn commit_wiki(&mut self, proposal_id: u64, path: &str, body: &str, signers: &[&str]) {
        self.commit(
            ChainChange::Applied {
                proposal_id,
                surface: Surface::Memory,
                payload: edit("wiki_patch", &new_file_patch(path, body)),
            },
            signers,
        );
    }

    /// Commits a returned seat that names a new transport key.
    fn commit_restored(&mut self, member: &str, nostr_pk: &str, signers: &[&str]) {
        let change = restored(member, &self.pk(member), Some(nostr_pk), None);
        self.commit(change, signers);
    }

    fn key(&self, member: &str) -> &SigningKey {
        &self.keys.iter().find(|(m, _)| m == member).expect("known member").1
    }

    fn pk(&self, member: &str) -> String {
        identity_public(self.key(member))
    }
}

fn text(t: &str) -> Payload {
    Payload::Text(t.to_string())
}

fn object(fields: Vec<(&str, Payload)>) -> Payload {
    Payload::Object(
        fields
            .into_iter()
            .map(|(name, value)| Field { name: name.to_string(), value })
            .collect(),
    )
}

fn note(id: u64) -> Payload {
    object(vec![("op", text("add_note")), ("id", Payload::Count(id))])
}

fn edit(op: &str, value: &str) -> Payload {
    object(vec![("op", text(op)), ("value", text(value))])
}

fn new_file_patch(path: &str, body: &str) -> String {
    let lines: Vec<&str> = body.split('\n').collect();
    let mut patch = format!(
        "diff --git a/{path} b/{path}\nnew file mode 100644\n--- /dev/null\n+++ b/{path}\n@@ -0,0 +1,{} @@\n",
        lines.len()
    );
    for l in lines {
        patch.push('+');
        patch.push_str(l);
        patch.push('\n');
    }
    patch
}

fn restored(
    member: &str,
    identity_pk: &str,
    nostr_pk: Option<&str>,
    consent: Option<String>,
) -> ChainChange {
    ChainChange::Membership {
        op: MembershipOp::Restored,
        member: member.to_string(),
        identity_pk: identity_pk.to_string(),
        nostr_pk: nostr_pk.map(str::to_string),
        relays: Vec::new(),
        consent,
    }
}

/// A seat's state that roots in the founding of `b` and holds `chain`.
fn peer_of(member: &str, roster: &[&str], b: &Builder, chain: Vec<ChainBlock>) -> State {
    let mut peer = State::new();
    peer.now = 1_751_000_000;
    peer.replica = Some(ReplicaState {
        name: "Chess Club".to_string(),
        member: member.to_string(),
        roster: roster.iter().map(|m| m.to_string()).collect(),
        rule_m: 2,
        identities: Vec::new(),
        agenda: "play chess".to_string(),
        features: None,
        republic_id: b.republic_id.clone(),
        founded_ts: 0,
    });
    peer.adopt_chain(chain);
    peer.effects.clear();
    peer
}

fn chain_peer(member: &str, b: &Builder, chain: Vec<ChainBlock>) -> State {
    peer_of(member, &["petra", "walter"], b, chain)
}

fn chain_peer_3(member: &str, b: &Builder) -> State {
    peer_of(member, &["petra", "walter", "dora"], b, b.blocks.clone())
}

/// A peer that can also sign.
fn chain_signer(member: &str, b: &Builder, chain: Vec<ChainBlock>) -> State {
    let mut s = chain_peer(member, b, chain);
    s.identity_sk = Some(*b.key(member));
    s
}

/// A chain of exactly `len` blocks.
fn grown_chain(len: usize) -> Builder {
    let mut b = Builder::new(&["petra", "walter"], 2);
    for id in 0..len.saturating_sub(1) {
        b.commit_applied(u64::try_from(id + 100).expect("small id"), &["petra", "walter"]);
    }
    assert_eq!(b.blocks.len(), len);
    b
}

/// A returning member's consent, signed with its own key.
fn consent_for(b: &Builder, member: &str, nostr_pk: &str) -> String {
    identity_sign(
        b.key(member),
        &restore_consent_bytes(&b.republic_id, member, &b.pk(member), nostr_pk),
    )
}

fn height(s: &State) -> u64 {
    s.head.as_ref().expect("head").height
}

/// The signature that a state holds of a member for a proposal.
fn sig_of(s: &State, id: u64, member: &str) -> String {
    s.pending_sigs
        .get(id)
        .expect("pending set")
        .sigs
        .iter()
        .find(|a| a.member == member)
        .expect("signed")
        .sig
        .clone()
}

/// The entries of a surface in a summary.
fn entries_of(groups: &Vec<AppliedGroup>, surface: Surface) -> Vec<AppliedEntry> {
    groups
        .iter()
        .find(|g| g.surface == surface)
        .map(|g| g.entries.clone())
        .unwrap_or_default()
}

/// The approvals and other events that a state asked its host to send.
fn sent(s: &State) -> Vec<WorkspaceEvent> {
    s.effects
        .iter()
        .filter_map(|e| match e {
            Effect::Send { body } => Some(body.clone()),
            _ => None,
        })
        .collect()
}

/// `s` hears a membership proposal.
fn hear_membership(s: &mut State, id: u64, change: ChainChange, canonical_anchor: bool) {
    let ChainChange::Membership { op, member, identity_pk, nostr_pk, relays, consent } = change
    else {
        panic!("a membership change")
    };
    s.receive_membership_proposal(
        id,
        op,
        &member,
        &identity_pk,
        nostr_pk,
        relays,
        consent,
        canonical_anchor,
    );
}


#[test]
fn genesis_then_applied_verifies() {
    let mut b = Builder::new(&["petra", "walter", "dora"], 2);
    b.commit_applied(1, &["petra", "walter"]);
    let head = verify_chain(&b.blocks).expect("valid chain verifies");
    assert_eq!(head.height, 1);
    assert_eq!(head.rule_m, 2);
    assert_eq!(head.identities.len(), 3);
}

#[test]
fn a_tampered_payload_is_rejected() {
    let mut b = Builder::new(&["petra", "walter"], 2);
    b.commit_applied(1, &["petra", "walter"]);
    if let ChainChange::Applied { payload, .. } = &mut b.blocks[1].change {
        *payload = note(999);
    }
    assert!(verify_chain(&b.blocks).is_err(), "signatures cover the payload");
}

#[test]
fn a_broken_prev_link_is_rejected() {
    let mut b = Builder::new(&["petra", "walter"], 2);
    b.commit_applied(1, &["petra", "walter"]);
    b.blocks[1].prev = GENESIS_PREV.to_string();
    assert!(verify_chain(&b.blocks).is_err(), "the chain link is broken");
}

#[test]
fn below_threshold_approvals_are_rejected() {
    let mut b = Builder::new(&["petra", "walter", "dora"], 2);
    b.commit_applied(1, &["petra"]);
    assert!(verify_chain(&b.blocks).is_err(), "one approval is below m=2");
}

#[test]
fn a_repeated_signature_does_not_reach_threshold() {
    let mut b = Builder::new(&["petra", "walter", "dora"], 2);
    b.commit_applied(1, &["petra"]);
    let dup = b.blocks[1].sigs[0].clone();
    b.blocks[1].sigs.push(dup);
    assert!(verify_chain(&b.blocks).is_err(), "one member signing twice is still one approver");
}

#[test]
fn applying_a_proposal_twice_is_rejected() {
    let mut b = Builder::new(&["petra", "walter"], 2);
    b.commit_applied(7, &["petra", "walter"]);
    b.commit_applied(7, &["petra", "walter"]);
    assert!(verify_chain(&b.blocks).is_err(), "no double-apply");
}

#[test]
fn a_height_gap_is_rejected() {
    let mut b = Builder::new(&["petra", "walter"], 2);
    b.commit_applied(1, &["petra", "walter"]);
    b.blocks[1].height = 5;
    assert!(verify_chain(&b.blocks).is_err(), "heights must be gapless");
}

#[test]
fn a_forged_genesis_id_is_rejected() {
    let mut b = Builder::new(&["petra", "walter"], 2);
    if let ChainChange::Genesis { republic_id, .. } = &mut b.blocks[0].change {
        *republic_id = "deadbeef".to_string();
    }
    assert!(verify_chain(&b.blocks).is_err(), "the republic id must match the roster content");
}

#[test]
fn a_joined_block_is_refused_whole() {
    let mut b = Builder::new(&["petra", "walter"], 2);
    let dora_pk = identity_public(&SigningKey { secret: [9u8; 32] });
    let join = ChainChange::Membership {
        op: MembershipOp::Joined,
        member: "dora".to_string(),
        identity_pk: dora_pk,
        nostr_pk: None,
        relays: Vec::new(),
        consent: None,
    };
    b.commit(join, &["petra", "walter"]);
    let err = verify_chain(&b.blocks).expect_err("a joined block does not verify");
    assert!(err.contains("not supported"), "{err}");
}

#[test]
fn malicious_checkpoint_heights_are_refused_not_panics() {
    let b = Builder::new(&["petra", "walter"], 2);
    let blob = checkpoint_state(&b.blocks, 0).expect("state@0");
    let anchor0 = ChainBlock {
        height: 0,
        prev: GENESIS_PREV.to_string(),
        change: ChainChange::Checkpoint {
            upto: u64::MAX,
            state_hash: checkpoint_state_hash(&blob),
        },
        sigs: Vec::new(),
    };
    assert!(
        verify_suffix_chain(&blob, &[anchor0], &b.republic_id).is_err(),
        "a height-0 anchor is refused, not an underflow abort"
    );
    let mut peer = chain_peer("walter", &b, b.blocks.clone());
    let mut bomb = blob.clone();
    bomb.upto = u64::MAX;
    peer.pending_served_blob = Some(bomb);
    peer.try_adopt_from_blob();
    assert!(peer.pending_served_blob.is_none(), "the overflow blob is dropped");
}

#[test]
fn a_forged_roster_anchor_and_a_gap_upto_are_rejected() {
    let mut b = Builder::new(&["petra", "walter", "dora"], 2);
    b.commit_applied(1, &["petra", "walter"]);
    b.commit_applied(2, &["walter", "dora"]);
    let blob = checkpoint_state(&b.blocks, 2).expect("state@2");

    let mut forged = blob.clone();
    let evil_sk1 = SigningKey { secret: [9u8; 32] };
    let evil_sk2 = SigningKey { secret: [8u8; 32] };
    forged.roster = vec![
        MemberIdentity {
            member: "petra".to_string(),
            identity_pk: identity_public(&evil_sk1),
            nostr_pk: "ee".repeat(32),
        },
        MemberIdentity {
            member: "walter".to_string(),
            identity_pk: identity_public(&evil_sk2),
            nostr_pk: "ff".repeat(32),
        },
    ];
    let change = ChainChange::Checkpoint {
        upto: 2,
        state_hash: checkpoint_state_hash(&forged),
    };
    let bytes = approval_bytes(&b.republic_id, 3, &change);
    let anchor = ChainBlock {
        height: 3,
        prev: "00".repeat(32),
        change,
        sigs: vec![
            RosterAttestation { member: "petra".to_string(), sig: identity_sign(&evil_sk1, &bytes) },
            RosterAttestation { member: "walter".to_string(), sig: identity_sign(&evil_sk2, &bytes) },
        ],
    };
    assert!(
        verify_suffix_chain(&forged, &[anchor], &b.republic_id).is_err(),
        "a sock-puppet roster must never bootstrap a rejoiner"
    );

    let gap = b.seal(
        3,
        ChainChange::Checkpoint {
            upto: 1,
            state_hash: checkpoint_state_hash(&checkpoint_state(&b.blocks, 1).expect("state@1")),
        },
        &["petra", "walter"],
    );
    let mut chain = b.blocks.clone();
    chain.push(gap.clone());
    assert!(verify_chain(&chain).is_err(), "full holders refuse a gap upto");
    assert!(
        verify_suffix_chain(&blob, &[gap], &b.republic_id).is_err(),
        "suffix holders refuse a gap upto"
    );
}

#[test]
fn a_suffix_blob_with_an_oversized_founding_table_is_rejected() {
    let mut b = Builder::new(&["petra", "walter", "dora"], 2);
    b.commit_applied(1, &["petra", "walter"]);
    let blob = checkpoint_state(&b.blocks, 1).expect("state@1");
    let mut forged = blob.clone();
    forged.founding_identities.push(MemberIdentity {
        member: "evil".to_string(),
        identity_pk: identity_public(&SigningKey { secret: [9u8; 32] }),
        nostr_pk: "dd".repeat(32),
    });
    forged.republic_id = republic_id(
        &forged.founding_name,
        forged.rule_m,
        forged.rule_n,
        &forged.founding_identities,
    );
    let change = ChainChange::Checkpoint {
        upto: 1,
        state_hash: checkpoint_state_hash(&forged),
    };
    let bytes = approval_bytes(&forged.republic_id, 2, &change);
    let sigs = ["petra", "walter"]
        .iter()
        .map(|name| RosterAttestation {
            member: (*name).to_string(),
            sig: identity_sign(b.key(name), &bytes),
        })
        .collect();
    let anchor = ChainBlock { height: 2, prev: "00".repeat(32), change, sigs };
    assert!(
        verify_suffix_chain(&forged, &[anchor], &forged.republic_id).is_err(),
        "a founding table larger than rule_n must be rejected"
    );
}

#[test]
fn a_resigned_roster_nostr_anchor_swap_is_rejected() {
    let mut b = Builder::new(&["petra", "walter", "dora"], 2);
    b.commit_applied(1, &["petra", "walter"]);
    let blob = checkpoint_state(&b.blocks, 1).expect("state@1");
    let mut forged = blob.clone();
    forged.roster[0].nostr_pk = "ee".repeat(32);
    let change = ChainChange::Checkpoint {
        upto: 1,
        state_hash: checkpoint_state_hash(&forged),
    };
    let bytes = approval_bytes(&forged.republic_id, 2, &change);
    let sigs = ["petra", "walter"]
        .iter()
        .map(|name| RosterAttestation {
            member: (*name).to_string(),
            sig: identity_sign(b.key(name), &bytes),
        })
        .collect();
    let anchor = ChainBlock { height: 2, prev: "00".repeat(32), change, sigs };
    assert!(
        verify_suffix_chain(&forged, &[anchor], &b.republic_id).is_err(),
        "a roster entry whose nostr anchor is not its founding-table anchor must be rejected"
    );
}

/// Seals the cut at `upto` with petra and walter.
fn cut(b: &Builder, upto: u64, state: &CheckpointState) -> ChainBlock {
    b.seal(
        upto + 1,
        ChainChange::Checkpoint { upto, state_hash: checkpoint_state_hash(state) },
        &["petra", "walter"],
    )
}

#[test]
fn a_second_checkpoint_inside_a_suffix_verifies_from_the_blob() {
    let mut b = Builder::new(&["petra", "walter"], 2);
    b.commit_applied(1, &["petra", "walter"]);
    let blob = checkpoint_state(&b.blocks, 1).expect("state@1");
    let anchor = cut(&b, 1, &blob);
    b.push(anchor);
    b.commit_applied(9, &["petra", "walter"]);
    let state4 = checkpoint_state(&b.blocks, 3).expect("state@3");
    let second = cut(&b, 3, &state4);
    b.push(second);
    verify_chain(&b.blocks).expect("full holders verify the chained checkpoints");
    let suffix: Vec<ChainBlock> = b.blocks[2..].to_vec();
    let head = verify_suffix_chain(&blob, &suffix, &b.republic_id)
        .expect("suffix holders verify the second checkpoint from the blob base");
    assert_eq!(head.height, 4);
}

#[test]
fn a_checkpoint_keeps_the_current_value_of_a_slot_not_its_history() {
    let mut b = Builder::new(&["petra", "walter", "dora"], 2);
    b.commit_org(1, "set_image", "first.png", &["petra", "walter"]);
    b.commit_org(2, "set_image", "second.png", &["petra", "walter"]);
    b.commit_org(3, "set_image", "third.png", &["petra", "walter"]);

    let state = checkpoint_state(&b.blocks, 3).expect("state");
    let org = entries_of(&state.applied, Surface::Organization);
    assert_eq!(org.len(), 1, "three logos survived the cut: {org:?}");
    assert_eq!(
        org[0].payload.text("value").map(String::as_str),
        Some("third.png"),
        "the summary kept the wrong logo"
    );
    assert_eq!(
        state.consumed_ids,
        vec![1, 2, 3],
        "a summarized-away payload must still be an un-re-appliable proposal id"
    );
}

#[test]
fn slots_are_independent_and_a_removal_supersedes_its_image() {
    let mut b = Builder::new(&["petra", "walter", "dora"], 2);
    b.commit_org(1, "set_image", "logo.png", &["petra", "walter"]);
    b.commit_org(2, "set_name", "Chess Club Reloaded", &["petra", "walter"]);
    b.commit_org(3, "remove_image", "", &["petra", "walter"]);

    let state = checkpoint_state(&b.blocks, 3).expect("state");
    let org = entries_of(&state.applied, Surface::Organization);
    let ops: Vec<&str> =
        org.iter().filter_map(|e| e.payload.text("op").map(String::as_str)).collect();
    assert_eq!(
        ops,
        vec!["set_name", "remove_image"],
        "the name and image slots must survive independently, and the removal must \
         supersede the set_image it removes: {org:?}"
    );
}

#[test]
fn accumulating_entries_all_survive_the_cut() {
    let mut b = Builder::new(&["petra", "walter", "dora"], 2);
    b.commit_applied(1, &["petra", "walter"]);
    b.commit_applied(2, &["petra", "walter"]);
    b.commit_applied(3, &["petra", "walter"]);

    let state = checkpoint_state(&b.blocks, 3).expect("state");
    let notes = entries_of(&state.applied, Surface::Memory);
    assert_eq!(notes.len(), 3, "notes are distinct objects: {notes:?}");
}

#[test]
fn an_undeclared_op_accumulates() {
    let mut b = Builder::new(&["petra", "walter", "dora"], 2);
    b.commit_org(1, "set_mascot", "otter", &["petra", "walter"]);
    b.commit_org(2, "set_mascot", "heron", &["petra", "walter"]);

    let state = checkpoint_state(&b.blocks, 2).expect("state");
    let org = entries_of(&state.applied, Surface::Organization);
    assert_eq!(org.len(), 2, "an undeclared op must not be summarized away: {org:?}");
}

#[test]
fn the_walk_and_the_fold_summarize_identically() {
    let mut b = Builder::new(&["petra", "walter", "dora"], 2);
    b.commit_org(1, "set_image", "first.png", &["petra", "walter"]);
    b.commit_applied(2, &["petra", "walter"]);
    b.commit_org(3, "set_image", "second.png", &["petra", "walter"]);
    b.commit_org(4, "set_charter", "play more chess", &["petra", "walter"]);

    let folded = checkpoint_state(&b.blocks, 4).expect("batch fold");
    let mut chain = b.blocks.clone();
    chain.push(cut(&b, 4, &folded));
    let head = verify_chain(&chain)
        .expect("the walk must reach the same summary the fold did - otherwise no cut is signable");
    assert_eq!(head.height, 5);
}

#[test]
fn a_summarized_away_payload_can_never_re_apply() {
    let mut b = Builder::new(&["petra", "walter", "dora"], 2);
    b.commit_org(1, "set_image", "first.png", &["petra", "walter"]);
    b.commit_org(2, "set_image", "second.png", &["petra", "walter"]);
    let blob = checkpoint_state(&b.blocks, 2).expect("state@2");

    let org = entries_of(&blob.applied, Surface::Organization);
    assert_eq!(org.len(), 1, "precondition: the first logo was summarized away");
    assert!(!org.iter().any(|e| e.id == 1), "precondition: id 1's payload is dropped");
    assert!(blob.consumed_ids.contains(&1), "the dropped payload's id must survive");

    let anchor = cut(&b, 2, &blob);
    b.push(anchor);
    b.commit_org(1, "set_image", "resurrected.png", &["petra", "walter"]);
    let suffix: Vec<ChainBlock> = b.blocks[3..].to_vec();
    assert!(
        verify_suffix_chain(&blob, &suffix, &b.republic_id).is_err(),
        "a summarized-away proposal id re-applied in the suffix"
    );
}

const ALL_SURFACES: [Surface; 6] = [
    Surface::Organization,
    Surface::Chat,
    Surface::Memory,
    Surface::Quests,
    Surface::Vault,
    Surface::Wallet,
];

fn surfaces(state: &CheckpointState) -> Vec<Surface> {
    state.applied.iter().map(|g| g.surface).collect()
}

#[test]
fn a_cut_seeds_exactly_the_frozen_v7_groups() {
    let mut b = Builder::new(&["petra", "walter", "dora"], 2);
    b.commit_org(1, "set_name", "X", &["petra", "walter"]);
    let st = checkpoint_state(&b.blocks, 1).expect("state@1");
    assert_eq!(surfaces(&st), ALL_SURFACES.to_vec());
}

#[test]
fn the_fold_creates_a_missing_group_at_its_all_position() {
    let mut b = Builder::new(&["petra", "walter", "dora"], 2);
    b.commit_org(1, "set_name", "X", &["petra", "walter"]);
    let mut st = checkpoint_state(&b.blocks, 1).expect("state@1");
    st.applied.retain(|g| g.surface != Surface::Quests);
    let block = b.seal(
        2,
        ChainChange::Applied {
            proposal_id: 2,
            surface: Surface::Quests,
            payload: object(vec![("op", text("add_quest")), ("title", text("x"))]),
        },
        &["petra", "walter"],
    );
    fold_one(&mut st, &block).expect("folds");
    assert_eq!(surfaces(&st), ALL_SURFACES.to_vec(), "re-created at its ALL position");
    let quests = entries_of(&st.applied, Surface::Quests);
    assert_eq!(quests.len(), 1);
}

#[test]
fn a_blob_with_a_dropped_or_reordered_group_fails_the_signed_hash() {
    let mut b = Builder::new(&["petra", "walter", "dora"], 2);
    b.commit_org(1, "set_name", "X", &["petra", "walter"]);
    b.commit_applied(2, &["petra", "walter"]);
    let honest = checkpoint_state(&b.blocks, 2).expect("state@2");
    let anchor = cut(&b, 2, &honest);
    b.push(anchor);
    let suffix: Vec<ChainBlock> = b.blocks[3..].to_vec();
    verify_suffix_chain(&honest, &suffix, &b.republic_id).expect("the honest blob verifies");

    let mut dropped = honest.clone();
    dropped.applied.retain(|g| g.surface != Surface::Wallet);
    let err =
        verify_suffix_chain(&dropped, &suffix, &b.republic_id).expect_err("a dropped group");
    assert!(err.contains("signed state hash"), "{err}");
    let mut swapped = honest.clone();
    swapped.applied.swap(1, 2);
    let err =
        verify_suffix_chain(&swapped, &suffix, &b.republic_id).expect_err("swapped groups");
    assert!(err.contains("signed state hash"), "{err}");
}

#[test]
fn a_suffix_holder_summarizes_onto_the_blob_the_same_way() {
    let mut b = Builder::new(&["petra", "walter", "dora"], 2);
    b.commit_org(1, "set_image", "first.png", &["petra", "walter"]);
    b.commit_applied(2, &["petra", "walter"]);
    let blob = checkpoint_state(&b.blocks, 2).expect("state@2");
    let anchor = cut(&b, 2, &blob);
    b.push(anchor);
    b.commit_org(4, "set_image", "second.png", &["petra", "walter"]);

    let full = checkpoint_state(&b.blocks, 4).expect("full fold@4");
    let suffix: Vec<ChainBlock> = b.blocks[3..].to_vec();
    let from_blob = fold_state(blob, &suffix, 4).expect("suffix fold@4");

    assert_eq!(
        checkpoint_state_hash(&full),
        checkpoint_state_hash(&from_blob),
        "a pruned holder and a full holder disagree about the summarized state"
    );
    let org = entries_of(&from_blob.applied, Surface::Organization);
    assert_eq!(org.len(), 1, "the blob's superseded image survived the second fold: {org:?}");
    assert_eq!(org[0].payload.text("value").map(String::as_str), Some("second.png"));
}

#[test]
fn checkpoint_state_is_deterministic_and_binds_the_founding() {
    let grown = || {
        let mut b = Builder::new(&["petra", "walter", "dora"], 2);
        b.commit_applied(2, &["petra", "walter"]);
        b.commit_applied(1, &["walter", "dora"]);
        b.commit_org(3, "set_image", "old.png", &["petra", "walter"]);
        b.commit_org(4, "set_image", "new.png", &["walter", "dora"]);
        b
    };
    let b1 = grown();
    let b2 = grown();

    let s1 = checkpoint_state(&b1.blocks, 4).expect("state 1");
    let s2 = checkpoint_state(&b2.blocks, 4).expect("state 2");
    assert_eq!(
        checkpoint_state_hash(&s1),
        checkpoint_state_hash(&s2),
        "equal chains yield the identical checkpoint hash"
    );
    let bytes = checkpoint_canonical_bytes(&s1);
    assert!(bytes.starts_with(b"molt-chain-checkpoint-v6\0"));
    let mut swapped = s1.clone();
    swapped.relays = vec!["wss://not-what-was-ratified.example".to_string()];
    assert_ne!(
        checkpoint_state_hash(&s1),
        checkpoint_state_hash(&swapped),
        "the checkpoint must bind the ratified pool"
    );
    assert_eq!(s1.consumed_ids, vec![1, 2, 3, 4]);
    assert_eq!(
        republic_id(&s1.founding_name, s1.rule_m, s1.rule_n, &s1.founding_identities),
        s1.republic_id
    );
    let shorter = checkpoint_state(&b1.blocks, 3).expect("shorter cut");
    assert_ne!(checkpoint_state_hash(&s1), checkpoint_state_hash(&shorter));
}

#[test]
fn a_threshold_restored_block_re_admits_a_member() {
    let b = Builder::new(&["petra", "walter"], 2);
    let walter_pk = b.pk("walter");
    let mut petra = chain_signer("petra", &b, b.blocks.clone());
    let mut walter = chain_signer("walter", &b, b.blocks.clone());

    let id = petra.propose_membership(
        MembershipOp::Restored,
        "walter",
        &walter_pk,
        None,
        Vec::new(),
        None,
    );
    assert_eq!(height(&petra), 0, "one signature does not re-admit");

    hear_membership(&mut walter, id, restored("walter", &walter_pk, None, None), true);
    let petra_sig = sig_of(&petra, id, "petra");
    walter.receive_approval(id, "petra", 1, &petra_sig);
    walter.chain_sign_and_gossip_approval(id);

    assert_eq!(height(&walter), 1);
    assert!(
        matches!(
            walter.blocks.last().expect("block").change,
            ChainChange::Membership { op: MembershipOp::Restored, .. }
        ),
        "the sealed block re-admits the member"
    );
}

#[test]
fn consent_abuse_rejects_the_chain() {
    let b = Builder::new(&["petra", "walter", "dora"], 2);
    let returned = |consent: Option<String>| restored("dora", &b.pk("dora"), None, consent);
    let verdict = |block: ChainBlock| {
        let mut chain = b.blocks.clone();
        chain.push(block);
        verify_chain(&chain)
    };

    let good = consent_for(&b, "dora", "");
    verdict(b.seal(1, returned(Some(good.clone())), &["petra"]))
        .expect("one survivor + consent reaches m");

    let forged = identity_sign(
        b.key("walter"),
        &restore_consent_bytes(&b.republic_id, "dora", &b.pk("dora"), ""),
    );
    let err = verdict(b.seal(1, returned(Some(forged)), &["petra"]))
        .expect_err("a forged consent must reject");
    assert!(err.contains("consent"), "the error names the consent: {err}");

    let err = verdict(b.seal(
        1,
        ChainChange::Membership {
            op: MembershipOp::Joined,
            member: "erika".to_string(),
            identity_pk: "aa".repeat(32),
            nostr_pk: None,
            relays: Vec::new(),
            consent: Some(good.clone()),
        },
        &["petra", "walter"],
    ))
    .expect_err("consent on a join must reject");
    assert!(err.contains("non-restore"), "{err}");

    let err = verdict(b.seal(1, returned(Some(good.clone())), &["dora"]))
        .expect_err("double-counting must reject");
    assert!(err.contains("twice"), "{err}");

    let err = verdict(b.seal(1, returned(Some(good)), &[]))
        .expect_err("consent alone is below threshold");
    assert!(err.contains("threshold"), "{err}");
}

#[test]
fn a_second_restored_block_for_the_same_seat_verifies() {
    let mut b = Builder::new(&["petra", "walter"], 2);
    let walter_pk = b.pk("walter");
    b.commit(restored("walter", &walter_pk, None, None), &["petra", "walter"]);
    b.commit(restored("walter", &walter_pk, None, None), &["petra", "walter"]);
    let head = verify_chain(&b.blocks).expect("two Restored blocks for one seat verify");
    assert_eq!(head.height, 2);
    assert_eq!(
        head.identities
            .iter()
            .find(|i| i.member == "walter")
            .expect("walter stays anchored")
            .identity_pk,
        walter_pk,
        "recovery re-keys the MLS leaf, never the roster identity"
    );

    let other_pk = identity_public(&SigningKey { secret: [42u8; 32] });
    b.commit(restored("walter", &other_pk, None, None), &["petra", "walter"]);
    assert!(
        verify_chain(&b.blocks).is_err(),
        "a Restored block with a non-anchored identity key must be rejected"
    );
}

const WIKI_ADD_A: &str = "diff --git a/a.md b/a.md\nnew file mode 100644\n--- /dev/null\n+++ b/a.md\n@@ -0,0 +1,2 @@\n+hello\n+world\n";

const WIKI_ADD_B: &str = "diff --git a/notes/b.md b/notes/b.md\nnew file mode 100644\n--- /dev/null\n+++ b/notes/b.md\n@@ -0,0 +1,1 @@\n+second\n";

fn commit_patch(b: &mut Builder, proposal_id: u64, patch: &str, signers: &[&str]) {
    b.commit(
        ChainChange::Applied {
            proposal_id,
            surface: Surface::Memory,
            payload: edit("wiki_patch", patch),
        },
        signers,
    );
}

/// A founding, a patch, an edit of the organization, a returned seat with its
/// consent, and a second patch.
fn wiki_fixture() -> Builder {
    let mut b = Builder::new(&["petra", "walter"], 2);
    commit_patch(&mut b, 1, WIKI_ADD_A, &["petra", "walter"]);
    b.commit_org(2, "set_name", "Chess Club 2", &["petra", "walter"]);
    let moved = "dd".repeat(32);
    let consent = consent_for(&b, "walter", &moved);
    let change = restored("walter", &b.pk("walter"), Some(&moved), Some(consent));
    b.commit(change, &["petra"]);
    commit_patch(&mut b, 3, WIKI_ADD_B, &["walter", "petra"]);
    b
}

fn file(path: &str, content: &str) -> WikiFile {
    WikiFile { path: path.to_string(), content: content.to_string() }
}

fn wiki_fixture_tree() -> Vec<WikiFile> {
    vec![file("a.md", "hello\nworld\n"), file("notes/b.md", "second\n")]
}

fn tree_of(files: &[WikiFile]) -> WikiTree {
    files.iter().fold(WikiTree::new(), |tree, f| tree.with(f.clone()))
}

/// Folds patches that add documents.
fn fold_patches(payloads: &[Payload]) -> WikiTree {
    let mut tree = WikiTree::new();
    for p in payloads {
        let patch = p.value_text();
        let path = patch
            .lines()
            .find_map(|l| l.strip_prefix("+++ b/"))
            .expect("a path")
            .to_string();
        let content: String = patch
            .lines()
            .skip_while(|l| !l.starts_with("@@"))
            .filter_map(|l| l.strip_prefix('+'))
            .map(|l| format!("{l}\n"))
            .collect();
        tree = tree.with(WikiFile { path, content });
    }
    tree
}

fn check_bundle(bundle: &WikiExportBundle, tree: &[WikiFile]) -> Result<WikiExportReport, String> {
    let report =
        verify_wiki_export_by(bundle, &tree_of(tree), |payloads: &Vec<Payload>| {
            fold_patches(payloads)
        });
    let folded = match verify_bundle(bundle) {
        Ok(proven) => fold_patches(&proven.payloads),
        Err(_) => WikiTree::new(),
    };
    assert_eq!(report, verify_wiki_export(bundle, &folded, &tree_of(tree)));
    report
}

fn check(blocks: &[ChainBlock], tree: &[WikiFile]) -> Result<WikiExportReport, String> {
    check_bundle(&bundle_from_chain(&blocks.to_vec()).expect("the chain has a genesis"), tree)
}

fn bundle_of(b: &Builder) -> WikiExportBundle {
    bundle_from_chain(&b.blocks).expect("the chain has a genesis")
}

#[test]
fn a_wiki_export_bundle_verifies_against_its_tree() {
    let b = wiki_fixture();
    verify_chain(&b.blocks).expect("the fixture is a real chain");
    let report = check(&b.blocks, &wiki_fixture_tree()).expect("the bundle verifies");
    assert_eq!(report.republic_id, b.republic_id);
    assert_eq!(report.name, "Chess Club");
    assert_eq!((report.rule_m, report.rule_n), (2, 2));
    assert_eq!(report.patches, 2, "both wiki patches ride along");
    assert_eq!(report.membership_blocks, 1, "the restored block rides along");
    assert_eq!(report.files, 2);
    assert_eq!(
        report.members,
        vec!["petra".to_string(), "walter".to_string()],
        "the roster walk ends at the founding roster (seats are fixed)"
    );
    let shown = format!("{:?}", bundle_of(&b));
    assert!(
        !shown.contains("set_name"),
        "only wiki patches and membership blocks are exported"
    );
}

#[test]
fn a_tampered_file_in_the_tree_fails_verification() {
    let b = wiki_fixture();
    let tree = vec![file("a.md", "hello\nWORLD\n"), file("notes/b.md", "second\n")];
    let err = check(&b.blocks, &tree).expect_err("a flipped byte must fail");
    assert!(err.contains("a.md"), "the fault names the file: {err}");
    let mut tree = wiki_fixture_tree();
    tree.push(file("stray.md", "smuggled"));
    assert!(check(&b.blocks, &tree).is_err(), "a stray file must fail");
}

#[test]
fn a_tampered_patch_payload_fails_verification() {
    let mut b = wiki_fixture();
    if let ChainChange::Applied { payload, .. } = &mut b.blocks[1].change {
        *payload = edit("wiki_patch", WIKI_ADD_A.replace("world", "welt").as_str());
    }
    assert!(
        check(&b.blocks, &wiki_fixture_tree()).is_err(),
        "the m signatures cover the patch bytes"
    );
}

#[test]
fn a_forged_or_removed_signature_fails_verification() {
    let mut b = wiki_fixture();
    b.blocks[4].sigs.truncate(1);
    assert!(check(&b.blocks, &wiki_fixture_tree()).is_err(), "one signature is below m = 2");
    let mut b = wiki_fixture();
    b.blocks[4].sigs[0].sig = "00".repeat(64);
    assert!(check(&b.blocks, &wiki_fixture_tree()).is_err(), "a forged signature must not count");
    let mut b = wiki_fixture();
    let mallory = SigningKey { secret: [42u8; 32] };
    let bytes = approval_bytes(&b.republic_id, 5, &b.blocks[4].change);
    b.blocks[4].sigs[0] = RosterAttestation {
        member: "mallory".to_string(),
        sig: identity_sign(&mallory, &bytes),
    };
    assert!(
        check(&b.blocks, &wiki_fixture_tree()).is_err(),
        "a stranger's signature is not a roster approval"
    );
}

#[test]
fn a_forged_recovery_consent_fails_verification() {
    let mut b = wiki_fixture();
    if let ChainChange::Membership { consent, .. } = &mut b.blocks[3].change {
        *consent = Some("11".repeat(64));
    }
    assert!(
        check(&b.blocks, &wiki_fixture_tree()).is_err(),
        "a consent that does not verify is not the second voice"
    );
}

#[test]
fn a_bundle_with_a_joined_block_is_refused() {
    let b = wiki_fixture();
    let mut bundle = bundle_of(&b);
    let height = bundle.blocks.last().map_or(0, |bl| bl.height) + 1;
    let mut joined = b.blocks[0].clone();
    joined.height = height;
    joined.change = ChainChange::Membership {
        op: MembershipOp::Joined,
        member: "dora".to_string(),
        identity_pk: identity_public(&SigningKey { secret: [9u8; 32] }),
        nostr_pk: None,
        relays: Vec::new(),
        consent: None,
    };
    bundle.blocks.push(joined);
    assert!(
        check_bundle(&bundle, &wiki_fixture_tree()).is_err(),
        "a joined seat is not a thing the verifier accepts"
    );
}

#[test]
fn two_patches_of_one_roster_must_still_arrive_in_order() {
    let mut b = Builder::new(&["petra", "walter"], 2);
    commit_patch(&mut b, 1, WIKI_ADD_A, &["petra", "walter"]);
    commit_patch(&mut b, 2, WIKI_ADD_B, &["petra", "walter"]);
    let tree = wiki_fixture_tree();
    assert!(check_bundle(&bundle_of(&b), &tree).is_ok(), "the fixture itself must verify in order");
    let mut swapped = bundle_of(&b);
    swapped.blocks.reverse();
    let err =
        check_bundle(&swapped, &tree).expect_err("blocks must arrive in ascending height order");
    assert!(err.contains("heights must ascend"), "the fault names the rule: {err}");
}

#[test]
fn reordered_or_duplicate_heights_fail_verification() {
    let b = wiki_fixture();
    let mut bundle = bundle_of(&b);
    bundle.blocks.reverse();
    assert!(
        check_bundle(&bundle, &wiki_fixture_tree()).is_err(),
        "blocks must arrive in ascending height order"
    );
    let mut bundle = bundle_of(&b);
    let dup = bundle.blocks[0].clone();
    bundle.blocks.insert(1, dup);
    assert!(
        check_bundle(&bundle, &wiki_fixture_tree()).is_err(),
        "a repeated block must not fold twice"
    );
}

#[test]
fn a_non_wiki_block_in_the_bundle_is_refused() {
    let b = wiki_fixture();
    let mut bundle = bundle_of(&b);
    bundle.blocks.push(b.blocks[2].clone());
    assert!(
        check_bundle(&bundle, &wiki_fixture_tree()).is_err(),
        "the bundle carries wiki patches and membership blocks, nothing else"
    );
}

#[test]
fn a_forged_genesis_id_fails_the_bundle() {
    let mut b = wiki_fixture();
    if let ChainChange::Genesis { republic_id, .. } = &mut b.blocks[0].change {
        *republic_id = "deadbeef".to_string();
    }
    assert!(
        check(&b.blocks, &wiki_fixture_tree()).is_err(),
        "the genesis id must re-derive from the roster content"
    );
}

#[test]
fn a_foreign_bundle_format_is_refused() {
    let b = wiki_fixture();
    let mut bundle = bundle_of(&b);
    assert_eq!(bundle.format, "molt-wiki-export-v1");
    bundle.format = "molt-wiki-export-v9".to_string();
    assert!(
        check_bundle(&bundle, &wiki_fixture_tree()).is_err(),
        "an unknown format tag is not verified on hope"
    );
}
