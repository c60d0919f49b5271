#![allow(dead_code, unused_imports)]

use molt_engine::canonical::{
    approval_bytes, checkpoint_canonical_bytes, restore_consent_bytes, seat_proof_bytes,
    GENESIS_PREV,
};
use molt_engine::checkpoint::collect_run;
use molt_engine::fold::{checkpoint_state, checkpoint_state_hash, fold_one, fold_state};
use molt_engine::identity::{
    content_hash, identity_public, identity_sign, identity_verify, republic_id, SigningKey,
};
use molt_engine::membership::membership_payload;
use molt_engine::model::{
    Anchor, AppliedEntry, AppliedGroup, ChainBlock, ChainChange, CheckpointState, MemberIdentity,
    MembershipOp, RelayDeclaration, RosterAttestation, Surface,
};
use molt_engine::payload::{Field, Payload};
use molt_engine::signers::{block_hash, ChainHead};
use molt_engine::state::{
    Effect, Event, HeightHash, PendingRecovery, ProposalRecord, ProposalState,
    RecoverProgressReport, ReplicaState, State, WorkspaceEvent,
};
use molt_engine::table::Table;
use molt_engine::walk::{
    sealed_roster_from_blob, sealed_roster_from_genesis, verify_chain, verify_served,
    verify_suffix_chain,
};
use molt_engine::rekey::rejoin_note;

/// Builds real threshold-signed chains: the founding is sealed by everybody,
/// later blocks by the named members.
#[derive(Clone)]
struct Builder {
    republic_id: String,
    keys: Vec<(String, SigningKey)>,
    blocks: Vec<ChainBlock>,
    head_hash: String,
}

impl Builder {
    fn new(members: &[&str], rule_m: u8) -> Builder {
        Builder::new_on_relays(members, rule_m, Vec::new())
    }

    fn new_on_relays(members: &[&str], rule_m: u8, relays: Vec<String>) -> Builder {
        let mut keys: Vec<(String, SigningKey)> = Vec::new();
        let mut identities: Vec<MemberIdentity> = Vec::new();
        for (i, m) in members.iter().enumerate() {
            let sk = SigningKey { secret: [u8::try_from(i + 1).unwrap_or(1); 32] };
            identities.push(MemberIdentity {
                member: (*m).to_string(),
                identity_pk: identity_public(&sk),
                nostr_pk: "cc".repeat(32),
            });
            keys.push(((*m).to_string(), sk));
        }
        let rule_n = u8::try_from(members.len()).expect("small roster");
        let republic_id = republic_id("Chess Club", rule_m, rule_n, &identities);
        let change = ChainChange::Genesis {
            name: "Chess Club".to_string(),
            republic_id: republic_id.clone(),
            rule_m,
            rule_n,
            identities,
            agenda: "play chess".to_string(),
            features: None,
            relays,
        };
        let mut b = Builder {
            republic_id,
            keys,
            blocks: Vec::new(),
            head_hash: GENESIS_PREV.to_string(),
        };
        let block = b.seal(0, change, members);
        b.push(block);
        b
    }

    /// Signs `change` at `height` with each named member.
    fn seal(&self, height: u64, change: ChainChange, signers: &[&str]) -> ChainBlock {
        let bytes = approval_bytes(&self.republic_id, height, &change);
        let sigs = signers
            .iter()
            .map(|name| RosterAttestation {
                member: (*name).to_string(),
                sig: identity_sign(self.key(name), &bytes),
            })
            .collect();
        ChainBlock { height, prev: self.head_hash.clone(), change, sigs }
    }

    fn push(&mut self, block: ChainBlock) {
        self.head_hash = block_hash(&self.republic_id, &block);
        self.blocks.push(block);
    }

    fn next_height(&self) -> u64 {
        u64::try_from(self.blocks.len()).expect("small chain")
    }

    fn commit(&mut self, change: ChainChange, signers: &[&str]) {
        let block = self.seal(self.next_height(), change, signers);
        self.push(block);
    }

    /// Commits a note signed by `signers` at the next height.
    fn commit_applied(&mut self, proposal_id: u64, signers: &[&str]) {
        self.commit(
            ChainChange::Applied {
                proposal_id,
                surface: Surface::Memory,
                payload: note(proposal_id),
            },
            signers,
        );
    }

    /// Commits an edit of the organization.
    fn commit_org(&mut self, proposal_id: u64, op: &str, value: &str, signers: &[&str]) {
        self.commit(
            ChainChange::Applied {
                proposal_id,
                surface: Surface::Organization,
                payload: edit(op, value),
            },
            signers,
        );
    }

    /// Commits a wiki patch that adds a document.
    fn commit_wiki(&mut self, proposal_id: u64, path: &str, body: &str, signers: &[&str]) {
        self.commit(
            ChainChange::Applied {
                proposal_id,
                surface: Surface::Memory,
                payload: edit("wiki_patch", &new_file_patch(path, body)),
            },
            signers,
        );
    }

    /// Commits a returned seat that names a new transport key.
    fn commit_restored(&mut self, member: &str, nostr_pk: &str, signers: &[&str]) {
        let change = restored(member, &self.pk(member), Some(nostr_pk), None);
        self.commit(change, signers);
    }

    fn key(&self, member: &str) -> &SigningKey {
        &self.keys.iter().find(|(m, _)| m == member).expect("known member").1
    }

    fn pk(&self, member: &str) -> String {
        identity_public(self.key(member))
    }
}

fn text(t: &str) -> Payload {
    Payload::Text(t.to_string())
}

fn object(fields: Vec<(&str, Payload)>) -> Payload {
    Payload::Object(
        fields
            .into_iter()
            .map(|(name, value)| Field { name: name.to_string(), value })
            .collect(),
    )
}

fn note(id: u64) -> Payload {
    object(vec![("op", text("add_note")), ("id", Payload::Count(id))])
}

fn edit(op: &str, value: &str) -> Payload {
    object(vec![("op", text(op)), ("value", text(value))])
}

fn new_file_patch(path: &str, body: &str) -> String {
    let lines: Vec<&str> = body.split('\n').collect();
    let mut patch = format!(
        "diff --git a/{path} b/{path}\nnew file mode 100644\n--- /dev/null\n+++ b/{path}\n@@ -0,0 +1,{} @@\n",
        lines.len()
    );
    for l in lines {
        patch.push('+');
        patch.push_str(l);
        patch.push('\n');
    }
    patch
}

fn restored(
    member: &str,
    identity_pk: &str,
    nostr_pk: Option<&str>,
    consent: Option<String>,
) -> ChainChange {
    ChainChange::Membership {
        op: MembershipOp::Restored,
        member: member.to_string(),
        identity_pk: identity_pk.to_string(),
        nostr_pk: nostr_pk.map(str::to_string),
        relays: Vec::new(),
        consent,
    }
}

/// A seat's state that roots in the founding of `b` and holds `chain`.
fn peer_of(member: &str, roster: &[&str], b: &Builder, chain: Vec<ChainBlock>) -> State {
    let mut peer = State::new();
    peer.now = 1_751_000_000;
    peer.replica = Some(ReplicaState {
        name: "Chess Club".to_string(),
        member: member.to_string(),
        roster: roster.iter().map(|m| m.to_string()).collect(),
        rule_m: 2,
        identities: Vec::new(),
        agenda: "play chess".to_string(),
        features: None,
        republic_id: b.republic_id.clone(),
        founded_ts: 0,
    });
    peer.adopt_chain(chain);
    peer.effects.clear();
    peer
}

fn chain_peer(member: &str, b: &Builder, chain: Vec<ChainBlock>) -> State {
    peer_of(member, &["petra", "walter"], b, chain)
}

fn chain_peer_3(member: &str, b: &Builder) -> State {
    peer_of(member, &["petra", "walter", "dora"], b, b.blocks.clone())
}

/// A peer that can also sign.
fn chain_signer(member: &str, b: &Builder, chain: Vec<ChainBlock>) -> State {
    let mut s = chain_peer(member, b, chain);
    s.identity_sk = Some(*b.key(member));
    s
}

/// A chain of exactly `len` blocks.
fn grown_chain(len: usize) -> Builder {
    let mut b = Builder::new(&["petra", "walter"], 2);
    for id in 0..len.saturating_sub(1) {
        b.commit_applied(u64::try_from(id + 100).expect("small id"), &["petra", "walter"]);
    }
    assert_eq!(b.blocks.len(), len);
    b
}

/// A returning member's consent, signed with its own key.
fn consent_for(b: &Builder, member: &str, nostr_pk: &str) -> String {
    identity_sign(
        b.key(member),
        &restore_consent_bytes(&b.republic_id, member, &b.pk(member), nostr_pk),
    )
}

fn height(s: &State) -> u64 {
    s.head.as_ref().expect("head").height
}

/// The signature that a state holds of a member for a proposal.
fn sig_of(s: &State, id: u64, member: &str) -> String {
    s.pending_sigs
        .get(id)
        .expect("pending set")
        .sigs
        .iter()
        .find(|a| a.member == member)
        .expect("signed")
        .sig
        .clone()
}

/// The entries of a surface in a summary.
fn entries_of(groups: &Vec<AppliedGroup>, surface: Surface) -> Vec<AppliedEntry> {
    groups
        .iter()
        .find(|g| g.surface == surface)
        .map(|g| g.entries.clone())
        .unwrap_or_default()
}

/// The approvals and other events that a state asked its host to send.
fn sent(s: &State) -> Vec<WorkspaceEvent> {
    s.effects
        .iter()
        .filter_map(|e| match e {
            Effect::Send { body } => Some(body.clone()),
            _ => None,
        })
        .collect()
}

/// `s` hears a membership proposal.
fn hear_membership(s: &mut State, id: u64, change: ChainChange, canonical_anchor: bool) {
    let ChainChange::Membership { op, member, identity_pk, nostr_pk, relays, consent } = change
    else {
        panic!("a membership change")
    };
    s.receive_membership_proposal(
        id,
        op,
        &member,
        &identity_pk,
        nostr_pk,
        relays,
        consent,
        canonical_anchor,
    );
}


fn signed_here(s: &State, id: u64, member: &str) -> bool {
    s.pending_sigs.get(id).is_some_and(|p| p.sigs.iter().any(|a| a.member == member))
}

fn seat_proof(key: &SigningKey, b: &Builder, ticket: &str, kp: &str, relays: &[String]) -> String {
    identity_sign(key, &seat_proof_bytes(ticket, kp, &b.republic_id, "", &relays.to_vec()))
}

/// A returning member's request, as it reaches the coordinator.
struct Request {
    ticketed: bool,
    member: String,
    identity_pk: String,
    key_package: String,
    ticket: String,
    seat_proof: String,
    nostr_pk: String,
    relays: Vec<String>,
    consent: String,
    reply: String,
}

fn ask(coord: &mut State, q: Request) -> Result<u64, String> {
    coord.verify_and_propose_restore(
        q.ticketed,
        &q.member,
        &q.identity_pk,
        &q.key_package,
        &q.ticket,
        &q.seat_proof,
        &q.nostr_pk,
        &q.relays,
        &q.consent,
        &q.reply,
    )
}

/// A request of dora's, proved by `key`.
fn request(b: &Builder, key: &SigningKey, relays: &[String], consent: &str) -> Request {
    Request {
        ticketed: true,
        member: "dora".to_string(),
        identity_pk: b.pk("dora"),
        key_package: "beef".to_string(),
        ticket: "recovery-ticket-xyz".to_string(),
        seat_proof: seat_proof(key, b, "recovery-ticket-xyz", "beef", relays),
        nostr_pk: String::new(),
        relays: relays.to_vec(),
        consent: consent.to_string(),
        reply: String::new(),
    }
}

fn pending_for(s: &State, member: &str) -> bool {
    s.pending_recovery.iter().any(|p| p.member == member)
}

#[test]
fn a_membership_proposal_with_an_implausible_id_is_not_recorded() {
    let b = Builder::new(&["petra", "walter", "dora"], 2);
    let mut walter = chain_signer("walter", &b, b.blocks.clone());
    let next_before = walter.next_id;
    let hostile = u64::MAX - 1;
    let change = restored("dora", &b.pk("dora"), None, None);
    assert!(!walter.admits_membership_proposal(hostile, &change));
    hear_membership(&mut walter, hostile, change, true);
    assert_eq!(walter.next_id, next_before, "next_id is not poisoned");
    assert!(!walter.proposals.contains_key(hostile), "no phantom card");
    assert!(!walter.proposal_changes.contains_key(hostile), "nothing registered");
}

#[test]
fn a_membership_proposal_cannot_hijack_a_colliding_surface_id() {
    let b = Builder::new(&["petra", "walter"], 2);
    let joined = |member: &str, pk: String| ChainChange::Membership {
        op: MembershipOp::Joined,
        member: member.to_string(),
        identity_pk: pk,
        nostr_pk: None,
        relays: Vec::new(),
        consent: None,
    };
    let add_note = || object(vec![("op", text("add_note"))]);
    let mut walter = chain_signer("walter", &b, b.blocks.clone());
    walter.receive_proposed(5, Surface::Memory, add_note(), "peer");
    hear_membership(&mut walter, 5, joined("mallory", "ab".repeat(32)), true);
    assert!(matches!(walter.proposal_change(5), Some(ChainChange::Applied { .. })));
    let mut walter2 = chain_signer("walter", &b, b.blocks.clone());
    hear_membership(&mut walter2, 6, joined("dora", "cd".repeat(32)), true);
    walter2.receive_proposed(6, Surface::Memory, add_note(), "peer");
    assert!(matches!(walter2.proposal_change(6), Some(ChainChange::Membership { .. })));
    assert!(!walter2.proposals.contains_key(6), "surface proposal refused");
}

#[test]
fn a_coordinator_re_admits_only_a_valid_seat_proof() {
    let b = Builder::new(&["petra", "walter", "dora"], 2);
    let mut coord = chain_signer("petra", &b, b.blocks.clone());
    let id = ask(&mut coord, request(&b, b.key("dora"), &[], ""))
        .expect("a valid seat proof re-admits");
    assert!(matches!(
        coord.proposal_changes.get(id),
        Some(ChainChange::Membership { op: MembershipOp::Restored, .. })
    ));
    assert!(pending_for(&coord, "dora"));

    assert!(ask(&mut coord, request(&b, b.key("petra"), &[], "")).is_err());

    let mut other_key = request(&b, b.key("dora"), &[], "");
    other_key.identity_pk = b.pk("walter");
    assert!(ask(&mut coord, other_key).is_err());
}

#[test]
fn a_consented_restore_seals_at_m_equals_n() {
    let b = Builder::new(&["petra", "walter"], 2);
    let walter_pk = b.pk("walter");
    let mut petra = chain_signer("petra", &b, b.blocks.clone());
    let consent = consent_for(&b, "walter", "");
    petra.propose_membership(
        MembershipOp::Restored,
        "walter",
        &walter_pk,
        None,
        Vec::new(),
        Some(consent),
    );
    assert_eq!(height(&petra), 1, "petra's signature + walter's consent reach 2-of-2");
    verify_chain(&petra.blocks).expect("an adopting reader accepts the consented block");
}

#[test]
fn a_wire_membership_proposal_is_votable_without_hand_applying() {
    let b = Builder::new(&["petra", "walter", "dora", "erika"], 3);
    let mut walter = chain_signer("walter", &b, b.blocks.clone());
    let consent = consent_for(&b, "dora", "");
    walter.membership_card(5, MembershipOp::Restored, "dora", "petra");
    hear_membership(&mut walter, 5, restored("dora", &b.pk("dora"), None, Some(consent)), true);
    assert!(walter.proposals.contains_key(5), "the receiver holds the votable card");
    walter.chain_sign_and_gossip_approval(5);
    assert!(signed_here(&walter, 5, "walter"), "the survivor can approve");
}

#[test]
fn a_membership_proposal_is_a_visible_approvable_record() {
    let b = Builder::new(&["petra", "walter", "dora"], 2);
    let mut coord = chain_signer("petra", &b, b.blocks.clone());
    let mut walter = chain_signer("walter", &b, b.blocks.clone());
    let id = ask(&mut coord, request(&b, b.key("dora"), &[], ""))
        .expect("a valid request proposes");

    let rec = coord.proposals.get(id).expect("the proposer holds a record");
    assert_eq!(rec.payload.text("op").map(String::as_str), Some("restore_member"));
    assert_eq!(rec.payload.text("member").map(String::as_str), Some("dora"));
    assert_eq!(rec.state, ProposalState::Proposed, "1 of 2 voices - still open");

    walter.membership_card(id, MembershipOp::Restored, "dora", "petra");
    hear_membership(&mut walter, id, restored("dora", &b.pk("dora"), None, None), true);
    assert_eq!(
        walter.proposals.get(id).map(|p| p.state),
        Some(ProposalState::Proposed),
        "the receiver sees an open, votable record"
    );
    assert!(
        !signed_here(&walter, id, "walter"),
        "a consent-less restore never auto-signs - the human vote is the content"
    );
    let petra_sig = sig_of(&coord, id, "petra");
    walter.receive_approval(id, "petra", 1, &petra_sig);
    assert_eq!(height(&walter), 0, "1 signature + no consent stays open");

    walter.chain_sign_and_gossip_approval(id);
    assert_eq!(height(&walter), 1);
    assert_eq!(
        walter.proposals.get(id).map(|p| p.state),
        Some(ProposalState::Applied),
        "the commit settles the record"
    );
    assert!(
        !walter.pending_sigs.contains_key(id) && !walter.proposal_changes.contains_key(id),
        "the vote bookkeeping is dropped"
    );
    verify_chain(&walter.blocks).expect("the sealed chain verifies from zero");
}

#[test]
fn a_consented_restore_is_approved_without_a_human() {
    let b = Builder::new(&["petra", "walter", "dora", "erika"], 3);
    let mut coord = chain_signer("petra", &b, b.blocks.clone());
    let mut walter = chain_signer("walter", &b, b.blocks.clone());
    let consent = consent_for(&b, "dora", "");
    let id = ask(&mut coord, request(&b, b.key("dora"), &[], &consent))
        .expect("a valid request proposes");

    walter.membership_card(id, MembershipOp::Restored, "dora", "petra");
    hear_membership(
        &mut walter,
        id,
        restored("dora", &b.pk("dora"), None, Some(consent)),
        true,
    );
    assert!(signed_here(&walter, id, "walter"), "a verified consent auto-signs on receipt");
    let petra_sig = sig_of(&coord, id, "petra");
    walter.receive_approval(id, "petra", 1, &petra_sig);
    assert_eq!(height(&walter), 1);
    assert_eq!(
        walter.proposals.get(id).map(|p| p.state),
        Some(ProposalState::Applied),
        "the commit settles the record without a human approve"
    );
    verify_chain(&walter.blocks).expect("the sealed chain verifies from zero");
}

#[test]
fn a_chain_known_anchor_is_a_replay() {
    let b = Builder::new(&["petra", "walter"], 2);
    let mut petra = chain_signer("petra", &b, b.blocks.clone());
    assert!(petra.anchor_seen_in_chain(&"cc".repeat(32)), "genesis anchors count");
    let consent = consent_for(&b, "walter", "ab");
    petra.propose_membership(
        MembershipOp::Restored,
        "walter",
        &b.pk("walter"),
        Some("ab".to_string()),
        Vec::new(),
        Some(consent),
    );
    assert_eq!(height(&petra), 1, "sealed");
    assert!(petra.anchor_seen_in_chain("ab"), "a Restored block's anchor counts");
    assert!(!petra.anchor_seen_in_chain(&"99".repeat(32)), "a fresh salt passes");
    assert!(!petra.anchor_seen_in_chain(""), "empty is never a hit");
}

#[test]
fn the_coordinator_reports_the_vote_progress_for_a_pending_recovery() {
    let b = Builder::new(&["petra", "walter", "dora"], 3);
    let mut coord = peer_of("petra", &["petra", "walter", "dora"], &b, b.blocks.clone());
    coord.identity_sk = Some(*b.key("petra"));
    let consent = consent_for(&b, "dora", "");
    let id = ask(&mut coord, request(&b, b.key("dora"), &[], &consent))
        .expect("a valid request proposes");
    let report = coord.recover_progress_for(id).expect("a coordinated recovery reports");
    assert_eq!(report.member, "dora");
    assert_eq!(report.need, 3);
    assert_eq!(report.roster, vec!["petra", "walter", "dora"], "roster order");
    assert_eq!(
        report.approved,
        vec!["dora", "petra"],
        "the coordinator's co-signature and the consent are counted; walter is not"
    );
    assert!(coord.recover_progress_for(id + 1).is_none());
}

#[test]
fn a_forged_consent_never_auto_signs() {
    let b = Builder::new(&["petra", "walter", "dora"], 2);
    let mut walter = chain_signer("walter", &b, b.blocks.clone());
    let forged = identity_sign(
        b.key("petra"),
        &restore_consent_bytes(&b.republic_id, "dora", &b.pk("dora"), ""),
    );
    hear_membership(
        &mut walter,
        7,
        restored("dora", &b.pk("dora"), None, Some(forged)),
        true,
    );
    assert!(
        !signed_here(&walter, 7, "walter"),
        "a forged consent must wait for a human, never auto-sign"
    );
}

#[test]
fn a_restore_claiming_a_foreign_anchor_never_auto_signs() {
    let b = Builder::new(&["petra", "walter", "dora"], 2);
    let mut walter = chain_signer("walter", &b, b.blocks.clone());
    let taken = "cc".repeat(32);
    let consent = consent_for(&b, "dora", &taken);
    hear_membership(
        &mut walter,
        7,
        restored("dora", &b.pk("dora"), Some(&taken), Some(consent)),
        true,
    );
    assert!(
        !signed_here(&walter, 7, "walter"),
        "an anchor collision must wait for a human, never auto-sign"
    );
    // nor does one whose key is not in its canonical form
    let fresh = "dd".repeat(32);
    let consent = consent_for(&b, "dora", &fresh);
    let change = restored("dora", &b.pk("dora"), Some(&fresh), Some(consent));
    hear_membership(&mut walter, 8, change.clone(), false);
    assert!(!signed_here(&walter, 8, "walter"));
    let mut other = chain_signer("walter", &b, b.blocks.clone());
    hear_membership(&mut other, 8, change, true);
    assert!(height(&other) == 1 || signed_here(&other, 8, "walter"));
}

#[test]
fn a_rejoin_over_a_foreign_relay_is_refused_naming_it() {
    let declared = vec!["wss://relay.two.example".to_string()];
    let b = Builder::new_on_relays(
        &["petra", "walter", "dora"],
        2,
        vec!["wss://relay.one".to_string()],
    );
    let mut coord = chain_signer("petra", &b, b.blocks.clone());
    let err = ask(&mut coord, request(&b, b.key("dora"), &declared, ""))
        .expect_err("a declaration bridging nobody must be refused");
    assert!(
        err.contains("wss://relay.two.example") && err.contains("add"),
        "the refusal names the relay the others must add: {err}"
    );

    let b2 = Builder::new_on_relays(
        &["petra", "walter", "dora"],
        2,
        vec!["wss://relay.one".to_string(), "wss://relay.two.example".to_string()],
    );
    let mut coord2 = chain_signer("petra", &b2, b2.blocks.clone());
    let id = ask(&mut coord2, request(&b2, b2.key("dora"), &declared, ""))
        .expect("the same declaration passes once the pool carries it");
    assert!(matches!(
        coord2.proposal_changes.get(id),
        Some(ChainChange::Membership { relays, .. }) if *relays == declared
    ));
}

fn recovery_of(member: &str) -> PendingRecovery {
    PendingRecovery {
        ticketed: true,
        member: member.to_string(),
        key_package: "beef".to_string(),
        reply: String::new(),
    }
}

#[test]
fn a_restored_commit_triggers_the_coordinators_rekey() {
    let b = Builder::new(&["petra", "walter", "dora"], 2);
    let mut coord = chain_signer("petra", &b, b.blocks.clone());
    coord.pending_recovery.push(recovery_of("walter"));
    let block = b.seal(1, restored("walter", &b.pk("walter"), None, None), &["petra", "walter"]);
    coord.receive_block(block);

    assert_eq!(height(&coord), 1);
    assert!(
        !pending_for(&coord, "walter"),
        "the coordinator consumed the pending recovery on the Restored commit"
    );
    assert!(
        coord.effects.iter().any(|e| matches!(
            e,
            Effect::Rekey { member, ticketed: true, key_package, .. }
                if member == "walter" && *key_package == vec![0xbe, 0xef]
        )),
        "and hands the re-key to its host"
    );
}

#[test]
fn a_restored_commit_without_a_pending_recovery_is_inert() {
    let b = Builder::new(&["petra", "walter", "dora"], 2);
    let mut node = chain_signer("petra", &b, b.blocks.clone());
    node.pending_recovery.push(recovery_of("dora"));
    let seq_before = node.next_seq;
    let block = b.seal(1, restored("walter", &b.pk("walter"), None, None), &["petra", "walter"]);
    node.receive_block(block);

    assert_eq!(height(&node), 1);
    assert_eq!(node.next_seq, seq_before, "no MlsCommit/notice was recorded");
    assert!(!node.effects.iter().any(|e| matches!(e, Effect::Rekey { .. })));
    assert!(!node.effects.iter().any(|e| matches!(e, Effect::AcceptAnnounce { .. })));
    assert!(pending_for(&node, "dora"));
}

#[test]
fn the_rejoin_notes_name_the_member() {
    assert!(rejoin_note(true, "dora").contains("dora"));
    assert_ne!(rejoin_note(true, "dora"), rejoin_note(false, "dora"));
}
