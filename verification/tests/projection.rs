#![allow(dead_code, unused_imports)]

use molt_engine::canonical::{
    approval_bytes, checkpoint_canonical_bytes, restore_consent_bytes, seat_proof_bytes,
    GENESIS_PREV,
};
use molt_engine::checkpoint::collect_run;
use molt_engine::fold::{checkpoint_state, checkpoint_state_hash, fold_one, fold_state};
use molt_engine::identity::{
    content_hash, identity_public, identity_sign, identity_verify, republic_id, SigningKey,
};
use molt_engine::membership::membership_payload;
use molt_engine::model::{
    Anchor, AppliedEntry, AppliedGroup, ChainBlock, ChainChange, CheckpointState, MemberIdentity,
    MembershipOp, RelayDeclaration, RosterAttestation, Surface,
};
use molt_engine::payload::{Field, Payload};
use molt_engine::signers::{block_hash, ChainHead};
use molt_engine::state::{
    Effect, Event, HeightHash, PendingRecovery, ProposalRecord, ProposalState,
    RecoverProgressReport, ReplicaState, State, WorkspaceEvent,
};
use molt_engine::table::Table;
use molt_engine::walk::{
    sealed_roster_from_blob, sealed_roster_from_genesis, verify_chain, verify_served,
    verify_suffix_chain,
};
use molt_engine::projection::max_applied_proposal_id;
use std::collections::{BTreeMap, VecDeque};

/// Builds real threshold-signed chains: the founding is sealed by everybody,
/// later blocks by the named members.
#[derive(Clone)]
struct Builder {
    republic_id: String,
    keys: Vec<(String, SigningKey)>,
    blocks: Vec<ChainBlock>,
    head_hash: String,
}

impl Builder {
    fn new(members: &[&str], rule_m: u8) -> Builder {
        Builder::new_on_relays(members, rule_m, Vec::new())
    }

    fn new_on_relays(members: &[&str], rule_m: u8, relays: Vec<String>) -> Builder {
        let mut keys: Vec<(String, SigningKey)> = Vec::new();
        let mut identities: Vec<MemberIdentity> = Vec::new();
        for (i, m) in members.iter().enumerate() {
            let sk = SigningKey { secret: [u8::try_from(i + 1).unwrap_or(1); 32] };
            identities.push(MemberIdentity {
                member: (*m).to_string(),
                identity_pk: identity_public(&sk),
                nostr_pk: "cc".repeat(32),
            });
            keys.push(((*m).to_string(), sk));
        }
        let rule_n = u8::try_from(members.len()).expect("small roster");
        let republic_id = republic_id("Chess Club", rule_m, rule_n, &identities);
        let change = ChainChange::Genesis {
            name: "Chess Club".to_string(),
            republic_id: republic_id.clone(),
            rule_m,
            rule_n,
            identities,
            agenda: "play chess".to_string(),
            features: None,
            relays,
        };
        let mut b = Builder {
            republic_id,
            keys,
            blocks: Vec::new(),
            head_hash: GENESIS_PREV.to_string(),
        };
        let block = b.seal(0, change, members);
        b.push(block);
        b
    }

    /// Signs `change` at `height` with each named member.
    fn seal(&self, height: u64, change: ChainChange, signers: &[&str]) -> ChainBlock {
        let bytes = approval_bytes(&self.republic_id, height, &change);
        let sigs = signers
            .iter()
            .map(|name| RosterAttestation {
                member: (*name).to_string(),
                sig: identity_sign(self.key(name), &bytes),
            })
            .collect();
        ChainBlock { height, prev: self.head_hash.clone(), change, sigs }
    }

    fn push(&mut self, block: ChainBlock) {
        self.head_hash = block_hash(&self.republic_id, &block);
        self.blocks.push(block);
    }

    fn next_height(&self) -> u64 {
        u64::try_from(self.blocks.len()).expect("small chain")
    }

    fn commit(&mut self, change: ChainChange, signers: &[&str]) {
        let block = self.seal(self.next_height(), change, signers);
        self.push(block);
    }

    /// Commits a note signed by `signers` at the next height.
    fn commit_applied(&mut self, proposal_id: u64, signers: &[&str]) {
        self.commit(
            ChainChange::Applied {
                proposal_id,
                surface: Surface::Memory,
                payload: note(proposal_id),
            },
            signers,
        );
    }

    /// Commits an edit of the organization.
    fn commit_org(&mut self, proposal_id: u64, op: &str, value: &str, signers: &[&str]) {
        self.commit(
            ChainChange::Applied {
                proposal_id,
                surface: Surface::Organization,
                payload: edit(op, value),
            },
            signers,
        );
    }

    /// Commits a wiki patch that adds a document.
    fn commit_wiki(&mut self, proposal_id: u64, path: &str, body: &str, signers: &[&str]) {
        self.commit(
            ChainChange::Applied {
                proposal_id,
                surface: Surface::Memory,
                payload: edit("wiki_patch", &new_file_patch(path, body)),
            },
            signers,
        );
    }

    /// Commits a returned seat that names a new transport key.
    fn commit_restored(&mut self, member: &str, nostr_pk: &str, signers: &[&str]) {
        let change = restored(member, &self.pk(member), Some(nostr_pk), None);
        self.commit(change, signers);
    }

    fn key(&self, member: &str) -> &SigningKey {
        &self.keys.iter().find(|(m, _)| m == member).expect("known member").1
    }

    fn pk(&self, member: &str) -> String {
        identity_public(self.key(member))
    }
}

fn text(t: &str) -> Payload {
    Payload::Text(t.to_string())
}

fn object(fields: Vec<(&str, Payload)>) -> Payload {
    Payload::Object(
        fields
            .into_iter()
            .map(|(name, value)| Field { name: name.to_string(), value })
            .collect(),
    )
}

fn note(id: u64) -> Payload {
    object(vec![("op", text("add_note")), ("id", Payload::Count(id))])
}

fn edit(op: &str, value: &str) -> Payload {
    object(vec![("op", text(op)), ("value", text(value))])
}

fn new_file_patch(path: &str, body: &str) -> String {
    let lines: Vec<&str> = body.split('\n').collect();
    let mut patch = format!(
        "diff --git a/{path} b/{path}\nnew file mode 100644\n--- /dev/null\n+++ b/{path}\n@@ -0,0 +1,{} @@\n",
        lines.len()
    );
    for l in lines {
        patch.push('+');
        patch.push_str(l);
        patch.push('\n');
    }
    patch
}

fn restored(
    member: &str,
    identity_pk: &str,
    nostr_pk: Option<&str>,
    consent: Option<String>,
) -> ChainChange {
    ChainChange::Membership {
        op: MembershipOp::Restored,
        member: member.to_string(),
        identity_pk: identity_pk.to_string(),
        nostr_pk: nostr_pk.map(str::to_string),
        relays: Vec::new(),
        consent,
    }
}

/// A seat's state that roots in the founding of `b` and holds `chain`.
fn peer_of(member: &str, roster: &[&str], b: &Builder, chain: Vec<ChainBlock>) -> State {
    let mut peer = State::new();
    peer.now = 1_751_000_000;
    peer.replica = Some(ReplicaState {
        name: "Chess Club".to_string(),
        member: member.to_string(),
        roster: roster.iter().map(|m| m.to_string()).collect(),
        rule_m: 2,
        identities: Vec::new(),
        agenda: "play chess".to_string(),
        features: None,
        republic_id: b.republic_id.clone(),
        founded_ts: 0,
    });
    peer.adopt_chain(chain);
    peer.effects.clear();
    peer
}

fn chain_peer(member: &str, b: &Builder, chain: Vec<ChainBlock>) -> State {
    peer_of(member, &["petra", "walter"], b, chain)
}

fn chain_peer_3(member: &str, b: &Builder) -> State {
    peer_of(member, &["petra", "walter", "dora"], b, b.blocks.clone())
}

/// A peer that can also sign.
fn chain_signer(member: &str, b: &Builder, chain: Vec<ChainBlock>) -> State {
    let mut s = chain_peer(member, b, chain);
    s.identity_sk = Some(*b.key(member));
    s
}

/// A chain of exactly `len` blocks.
fn grown_chain(len: usize) -> Builder {
    let mut b = Builder::new(&["petra", "walter"], 2);
    for id in 0..len.saturating_sub(1) {
        b.commit_applied(u64::try_from(id + 100).expect("small id"), &["petra", "walter"]);
    }
    assert_eq!(b.blocks.len(), len);
    b
}

/// A returning member's consent, signed with its own key.
fn consent_for(b: &Builder, member: &str, nostr_pk: &str) -> String {
    identity_sign(
        b.key(member),
        &restore_consent_bytes(&b.republic_id, member, &b.pk(member), nostr_pk),
    )
}

fn height(s: &State) -> u64 {
    s.head.as_ref().expect("head").height
}

/// The signature that a state holds of a member for a proposal.
fn sig_of(s: &State, id: u64, member: &str) -> String {
    s.pending_sigs
        .get(id)
        .expect("pending set")
        .sigs
        .iter()
        .find(|a| a.member == member)
        .expect("signed")
        .sig
        .clone()
}

/// The entries of a surface in a summary.
fn entries_of(groups: &Vec<AppliedGroup>, surface: Surface) -> Vec<AppliedEntry> {
    groups
        .iter()
        .find(|g| g.surface == surface)
        .map(|g| g.entries.clone())
        .unwrap_or_default()
}

/// The approvals and other events that a state asked its host to send.
fn sent(s: &State) -> Vec<WorkspaceEvent> {
    s.effects
        .iter()
        .filter_map(|e| match e {
            Effect::Send { body } => Some(body.clone()),
            _ => None,
        })
        .collect()
}

/// `s` hears a membership proposal.
fn hear_membership(s: &mut State, id: u64, change: ChainChange, canonical_anchor: bool) {
    let ChainChange::Membership { op, member, identity_pk, nostr_pk, relays, consent } = change
    else {
        panic!("a membership change")
    };
    s.receive_membership_proposal(
        id,
        op,
        &member,
        &identity_pk,
        nostr_pk,
        relays,
        consent,
        canonical_anchor,
    );
}


/// A transport key that nobody was founded with.
fn fresh_key(n: u8) -> String {
    identity_public(&SigningKey { secret: [n; 32] })
}

fn relays_of(names: &[&str]) -> Vec<String> {
    names.iter().map(|n| n.to_string()).collect()
}

fn declared(b: &Builder, member: &str, nostr_pk: &str, relays: &[&str]) -> ChainChange {
    ChainChange::Membership {
        op: MembershipOp::Restored,
        member: member.to_string(),
        identity_pk: b.pk(member),
        nostr_pk: Some(nostr_pk.to_string()),
        relays: relays_of(relays),
        consent: None,
    }
}

fn cut(b: &mut Builder, upto: u64) -> CheckpointState {
    let blob = checkpoint_state(&b.blocks, upto).expect("state");
    let change = ChainChange::Checkpoint { upto, state_hash: checkpoint_state_hash(&blob) };
    b.commit(change, &["petra", "walter"]);
    blob
}

/// A holder of the chain from the cut on.
fn pruned_peer(b: &Builder, blob: CheckpointState, from: usize) -> State {
    let mut st = chain_peer("walter", b, Vec::new());
    st.set_checkpoint_blob(Some(blob));
    st.adopt_chain(b.blocks[from..].to_vec());
    st
}

#[test]
fn the_max_applied_proposal_id_reads_the_chain() {
    let mut b = Builder::new(&["petra", "walter"], 2);
    assert_eq!(max_applied_proposal_id(&b.blocks), None);
    b.commit_applied(7, &["petra", "walter"]);
    b.commit_applied(3, &["petra", "walter"]);
    assert_eq!(max_applied_proposal_id(&b.blocks), Some(7));
}

fn founding_anchor(s: &State, member: &str) -> String {
    s.replica
        .as_ref()
        .and_then(|r| r.identities.iter().find(|i| i.member == member))
        .map(|i| i.nostr_pk.clone())
        .expect("anchored")
}

#[test]
fn the_working_anchor_follows_a_restored_block_while_the_roster_does_not() {
    let mut b = Builder::new(&["petra", "walter"], 2);
    let mut st = chain_peer("walter", &b, b.blocks.clone());
    let founding = founding_anchor(&st, "petra");
    assert_eq!(
        st.working_nostr_pk("petra"),
        founding,
        "before any recovery the projection IS the roster anchor"
    );

    let fresh = fresh_key(77);
    b.commit_restored("petra", &fresh, &["petra", "walter"]);
    st.adopt_chain(b.blocks.clone());
    assert_eq!(
        st.working_nostr_pk("petra"),
        fresh,
        "after a Restored block the projection returns the NEW key"
    );
    assert_eq!(
        founding_anchor(&st, "petra"),
        founding,
        "…while the roster keeps the immutable FOUNDING anchor"
    );
    assert_eq!(st.working_nostr_pk("nobody"), "");
}

#[test]
fn a_compaction_keeps_the_working_anchor_of_a_recovered_seat() {
    let mut b = Builder::new(&["petra", "walter"], 2);
    let fresh = fresh_key(77);
    b.commit_restored("petra", &fresh, &["petra", "walter"]);
    let blob = cut(&mut b, 1);
    assert_eq!(
        blob.anchors,
        vec![Anchor { member: "petra".to_string(), nostr_pk: fresh.clone() }],
        "the summary must carry the anchors the dropped blocks established"
    );
    let st = pruned_peer(&b, blob, 2);
    assert_eq!(
        st.working_nostr_pk("petra"),
        fresh,
        "after the cut the seat is addressable only at the key it no longer holds"
    );
}

#[test]
fn the_ledger_reports_declared_relays_and_survives_a_cut() {
    let pool = relays_of(&["wss://relay.one"]);
    let mut b = Builder::new_on_relays(&["petra", "walter"], 2, pool.clone());
    let mut st = chain_peer("walter", &b, b.blocks.clone());
    assert_eq!(
        st.member_relays("walter"),
        pool,
        "a founding member is covered by the ratified pool"
    );

    let own = relays_of(&["wss://relay.two.example"]);
    let change = declared(&b, "petra", &fresh_key(77), &["wss://relay.two.example"]);
    b.commit(change, &["petra", "walter"]);
    st.adopt_chain(b.blocks.clone());
    assert_eq!(
        st.member_relays("petra"),
        own,
        "every member's ledger reports the declared pool"
    );
    assert_eq!(st.member_relays("walter"), pool, "the others stay on the ratified pool");

    let blob = cut(&mut b, 1);
    assert_eq!(
        blob.member_relays,
        vec![RelayDeclaration { member: "petra".to_string(), relays: own.clone() }],
        "the summary carries the declarations the dropped blocks established"
    );
    let pruned = pruned_peer(&b, blob, 2);
    assert_eq!(pruned.member_relays("petra"), own, "a cut must not forget a declaration");
    assert_eq!(pruned.member_relays("walter"), pool, "…nor the ratified fallback");
}

#[test]
fn disjoint_relay_sets_produce_a_split_verdict_naming_the_bridge() {
    let mut b =
        Builder::new_on_relays(&["petra", "walter"], 2, relays_of(&["wss://relay.one"]));
    let mut st = chain_peer("walter", &b, b.blocks.clone());
    assert!(st.relay_splits().is_empty(), "one shared pool - no split");

    let change = declared(&b, "petra", &fresh_key(77), &["wss://relay.two.example"]);
    b.commit(change, &["petra", "walter"]);
    st.adopt_chain(b.blocks.clone());
    let splits: Vec<(String, String)> =
        st.relay_splits().into_iter().map(|p| (p.a, p.b)).collect();
    assert_eq!(
        splits,
        vec![("petra".to_string(), "walter".to_string())],
        "the verdict names both seats"
    );
    // the relays that would bridge are on record for both
    assert_eq!(st.member_relays("petra"), relays_of(&["wss://relay.two.example"]));
    assert_eq!(st.member_relays("walter"), relays_of(&["wss://relay.one"]));
}

#[test]
fn chain_applied_entries_carry_their_proposal_id() {
    let mut b = Builder::new(&["petra", "walter", "dora"], 2);
    b.commit_applied(7, &["petra", "walter"]);
    let mut peer = State::new();
    peer.adopt_chain(b.blocks.clone());
    let applied = entries_of(&peer.applied, Surface::Memory);
    assert_eq!(applied.len(), 1, "one committed Applied block");
    assert_eq!(applied[0].id, 7, "the block's proposal id rides the id track");
}

fn signers_of(s: &State, id: u64) -> Vec<String> {
    s.applied_sigs.get(id).expect("signers").iter().map(|a| a.member.clone()).collect()
}

#[test]
fn an_adopted_applied_block_materializes_its_accepted_card() {
    let mut b = Builder::new(&["petra", "walter", "dora"], 2);
    let payload = object(vec![
        ("op", text("wiki_patch")),
        ("value", text("diff --git a/a.md b/a.md\nnew file mode 100644\n--- /dev/null\n+++ b/a.md\n@@ -0,0 +1,1 @@\n+hi\n")),
        ("summary", text("+1 -0 →0 ~1")),
    ]);
    b.commit(
        ChainChange::Applied { proposal_id: 4, surface: Surface::Memory, payload },
        &["petra", "walter"],
    );
    let mut peer = chain_peer_3("dora", &b);
    assert_eq!(
        entries_of(&peer.applied, Surface::Memory).iter().map(|e| e.id).collect::<Vec<_>>(),
        vec![4]
    );
    let card = peer.proposals.get(4).expect("the accepted card exists again");
    assert_eq!(card.state, ProposalState::Applied);
    assert_eq!(signers_of(&peer, 4), vec!["petra", "walter"], "who voted is chain-proven");
    assert_eq!(
        card.payload.text("op").map(String::as_str),
        Some("wiki_patch"),
        "the payload keeps its shape (the GUI's patch rendering keys on it)"
    );

    let late = b.seal(
        2,
        ChainChange::Applied {
            proposal_id: 9,
            surface: Surface::Memory,
            payload: object(vec![("op", text("add_note")), ("title", text("minutes"))]),
        },
        &["walter", "dora"],
    );
    peer.receive_block(late);
    assert_eq!(peer.proposals.len(), 2, "both cards stand");
    assert_eq!(peer.proposals.get(9).map(|p| p.state), Some(ProposalState::Applied));
    assert_eq!(
        signers_of(&peer, 9),
        vec!["walter", "dora"],
        "the live-adopted card names its signers too"
    );
}

#[test]
fn adopting_a_chain_settles_replayed_proposal_cards() {
    let mut b = Builder::new(&["petra", "walter"], 2);
    let genesis = b.blocks.clone();
    b.commit_applied(7, &["petra", "walter"]);
    b.commit_restored("petra", &"ab".repeat(32), &["petra", "walter"]);

    let mut reopened = chain_peer("walter", &b, genesis);
    reopened.receive_proposed(7, Surface::Memory, note(7), "peer");
    reopened.receive_proposed(
        8,
        Surface::Organization,
        object(vec![("op", text("restore_member")), ("member", text("petra"))]),
        "peer",
    );
    reopened.adopt_chain(b.blocks.clone());
    let card = reopened.proposals.get(7).expect("card survives");
    assert_eq!(card.state, ProposalState::Applied, "the chain consumed id 7");
    let restore = reopened.proposals.get(8).expect("restore card survives");
    assert_eq!(
        restore.state,
        ProposalState::Applied,
        "the Restored block settles the membership card"
    );

    let mut live = chain_peer("walter", &b, b.blocks.clone());
    assert!(
        !live.receive_proposed(7, Surface::Memory, note(7), "peer"),
        "a consumed id must not open a fresh card"
    );
    assert_eq!(
        live.proposals.get(7).map(|p| p.state),
        Some(ProposalState::Applied),
        "the consumed id stays a settled, chain-proven card"
    );
}

#[test]
fn the_appended_projection_equals_the_whole_chain_rebuild() {
    let mut b = Builder::new(&["petra", "walter"], 2);
    b.commit_applied(1, &["petra", "walter"]);
    b.commit_restored("walter", &fresh_key(78), &["petra", "walter"]);
    b.commit_applied(2, &["petra", "walter"]);
    let mut peer = chain_peer("walter", &b, b.blocks[..1].to_vec());
    for block in b.blocks[1..].iter().rev() {
        peer.receive_block(block.clone());
    }
    assert_eq!(peer.blocks.len(), 4, "the whole suffix drained");

    let incremental = (peer.applied.clone(), peer.anchors.clone());
    peer.apply_chain_to_state();
    assert_eq!(
        incremental,
        (peer.applied.clone(), peer.anchors.clone()),
        "the appended projection must equal the whole-chain rebuild"
    );
}

/// Proposes as `proposer` and seals with `other`.
fn vote(proposer: &mut State, other: &mut State, payload: Payload) -> u64 {
    let id = proposer.next_id;
    let me = proposer.member();
    let at = height(other) + 1;
    proposer.receive_proposed(id, Surface::Organization, payload.clone(), &me);
    proposer.chain_sign_and_gossip_approval(id);
    other.receive_proposed(id, Surface::Organization, payload, "peer");
    let sig = sig_of(proposer, id, &me);
    other.receive_approval(id, &me, at, &sig);
    id
}

#[test]
fn a_pool_edit_commits_under_threshold_and_moves_the_effective_pool() {
    let pool = relays_of(&["wss://relay.one"]);
    let b = Builder::new_on_relays(&["petra", "walter"], 2, pool.clone());
    let mut walter = chain_signer("walter", &b, b.blocks.clone());
    let mut petra = chain_signer("petra", &b, b.blocks.clone());
    let id = vote(
        &mut walter,
        &mut petra,
        edit("set_relays", "wss://relay.one wss://relay.three.example"),
    );
    assert_eq!(walter.effective_relays(), pool, "below threshold the pool must not move");
    petra.chain_sign_and_gossip_approval(id);
    assert_eq!(height(&petra), 1, "sealed at m");
    assert_eq!(
        petra.effective_relays(),
        relays_of(&["wss://relay.one", "wss://relay.three.example"]),
        "at m the pool moves"
    );
}

#[test]
fn a_zero_overlap_pool_block_folds_as_a_no_op() {
    let r_a = "wss://relay.one";
    let r_b = "wss://relay.two.example";
    let mut b = Builder::new_on_relays(&["petra", "walter"], 2, relays_of(&[r_a]));
    b.commit_org(1, "set_relays", r_b, &["petra", "walter"]);
    let walter = chain_signer("walter", &b, b.blocks.clone());
    assert_eq!(walter.effective_relays(), relays_of(&[r_a]), "zero overlap folds as no-op");
    b.commit_org(2, "set_relays", &format!("{r_a} {r_b}"), &["petra", "walter"]);
    b.commit_org(3, "set_relays", r_b, &["petra", "walter"]);
    let walter = chain_signer("walter", &b, b.blocks.clone());
    assert_eq!(
        walter.effective_relays(),
        relays_of(&[r_b]),
        "the two-vote migration applies"
    );
}

#[test]
fn a_feature_edit_commits_under_threshold_and_moves_the_effective_set() {
    let b = Builder::new_on_relays(&["petra", "walter"], 2, relays_of(&["wss://relay.one"]));
    let mut walter = chain_signer("walter", &b, b.blocks.clone());
    let mut petra = chain_signer("petra", &b, b.blocks.clone());
    assert_eq!(
        walter.effective_features(),
        vec!["memory".to_string()],
        "the legacy baseline is Shared Memory"
    );
    let id = vote(&mut walter, &mut petra, edit("set_features", "memory quests"));
    assert_eq!(
        walter.effective_features(),
        vec!["memory".to_string()],
        "below threshold the set must not move"
    );
    petra.chain_sign_and_gossip_approval(id);
    assert_eq!(height(&petra), 1, "sealed at m");
    assert_eq!(
        petra.effective_features(),
        vec!["memory".to_string(), "quests".to_string()],
        "at m the set moves"
    );
}

#[test]
fn a_feature_dropping_block_folds_as_a_union() {
    let mut b = Builder::new_on_relays(&["petra", "walter"], 2, relays_of(&["wss://relay.one"]));
    b.commit_org(1, "set_features", "quests", &["petra", "walter"]);
    let walter = chain_signer("walter", &b, b.blocks.clone());
    assert_eq!(
        walter.effective_features(),
        vec!["memory".to_string(), "quests".to_string()],
        "a dropping block folds as a union - nothing is ever disabled"
    );
}

#[test]
fn a_disabled_surface_refuses_select_and_propose_until_enabled() {
    let mut b = Builder::new_on_relays(&["petra", "walter"], 2, relays_of(&["wss://relay.one"]));
    let walter = chain_signer("walter", &b, b.blocks.clone());
    walter.require_feature(Surface::Memory).expect("memory is enabled");
    let err = walter
        .require_feature(Surface::Quests)
        .expect_err("a disabled surface must be refused");
    assert_eq!(format!("{err}: not enabled"), "quests: not enabled");
    walter.require_feature(Surface::Organization).expect("it is not optional");
    b.commit_org(1, "set_features", "memory quests", &["petra", "walter"]);
    let walter = chain_signer("walter", &b, b.blocks.clone());
    walter.require_feature(Surface::Quests).expect("an enabled surface passes");
    assert_eq!(
        walter.effective_features(),
        vec!["memory".to_string(), "quests".to_string()],
    );
}

#[test]
fn an_unknown_effective_key_does_not_brick_feature_governance() {
    let mut b = Builder::new_on_relays(&["petra", "walter"], 2, relays_of(&["wss://relay.one"]));
    b.commit_org(1, "set_features", "memory zzz", &["petra", "walter"]);
    let mut walter = chain_signer("walter", &b, b.blocks.clone());
    assert!(
        walter.effective_features().iter().any(|f| f == "zzz"),
        "the unknown key is effective (union fold keeps it)"
    );
    let mut petra = chain_signer("petra", &b, b.blocks.clone());
    let id = vote(&mut walter, &mut petra, edit("set_features", "memory quests"));
    petra.chain_sign_and_gossip_approval(id);
    assert_eq!(
        petra.effective_features(),
        vec!["memory".to_string(), "quests".to_string(), "zzz".to_string()],
        "the union keeps what this build cannot name"
    );
}

#[test]
fn a_fresh_adopter_never_mints_a_chain_consumed_proposal_id() {
    let mut b = Builder::new_on_relays(&["petra", "walter"], 2, relays_of(&["wss://relay.one"]));
    b.commit_org(1, "set_features", "memory quests", &["petra", "walter"]);
    let walter = chain_signer("walter", &b, b.blocks.clone());
    let id = walter.next_id;
    assert!(id > 1, "the consumed id 1 must be skipped, got {id}");
    let mut petra = chain_signer("petra", &b, b.blocks.clone());
    assert!(
        petra.receive_proposed(
            id,
            Surface::Organization,
            edit("set_features", "memory quests vault"),
            "peer"
        ),
        "the peer registers the freshly minted id"
    );
}

#[test]
fn the_feature_baseline_follows_the_ratified_selection() {
    let b = Builder::new_on_relays(&["petra", "walter"], 2, Vec::new());
    let mut st = chain_signer("walter", &b, b.blocks.clone());
    if let Some(r) = st.replica.as_mut() {
        r.features = Some(Vec::new());
    }
    assert_eq!(
        st.effective_features(),
        Vec::<String>::new(),
        "an explicitly empty selection enables nothing"
    );
    if let Some(r) = st.replica.as_mut() {
        r.features = Some(vec!["wallet".to_string()]);
    }
    assert_eq!(st.effective_features(), vec!["wallet".to_string()]);
}

#[test]
fn read_chain_lists_blocks_newest_first_and_survives_the_prune() {
    let mut b = Builder::new(&["petra", "walter"], 2);
    b.commit_applied(1, &["petra", "walter"]);
    b.commit_applied(2, &["petra", "walter"]);
    let mut walter = chain_signer("walter", &b, b.blocks.clone());

    let blocks = walter.cmd_read_chain();
    assert_eq!(
        blocks.iter().map(|v| (v.height, v.kind.as_str())).collect::<Vec<_>>(),
        vec![(2, "applied"), (1, "applied"), (0, "genesis")]
    );
    assert_eq!(blocks[0].proposal_id, 2, "the applied view names its proposal");
    assert_eq!(blocks[0].surface, "memory");
    assert_eq!(blocks[0].payload.text("op").map(String::as_str), Some("add_note"));
    assert_eq!(
        blocks[0].signers,
        vec!["petra".to_string(), "walter".to_string()],
        "the signers ride the view in block order"
    );
    assert_eq!(blocks[2].payload, text("Chess Club"), "the genesis shows the name");
    assert_eq!(blocks[2].surface, "");
    assert_eq!(blocks[2].proposal_id, 0);

    let hash = checkpoint_state_hash(&checkpoint_state(&b.blocks, 2).expect("state"));
    walter.receive_checkpoint_proposal(40, 2, &hash);
    let change = ChainChange::Checkpoint { upto: 2, state_hash: hash };
    let bytes = approval_bytes(&b.republic_id, 3, &change);
    let petra_sig = identity_sign(b.key("petra"), &bytes);
    walter.receive_approval(40, "petra", 3, &petra_sig);
    assert_eq!(walter.blocks.len(), 1, "history below the cut is dropped");

    let blocks = walter.cmd_read_chain();
    assert_eq!(
        blocks.iter().map(|v| (v.height, v.kind.as_str())).collect::<Vec<_>>(),
        vec![(3, "checkpoint"), (0, "applied"), (0, "applied"), (0, "genesis")]
    );
    assert_eq!(blocks[0].payload, Payload::Count(2), "the checkpoint view shows the upto");
    assert_eq!(blocks[0].signers.len(), 2, "the anchor block keeps its m signers");
    assert_eq!(blocks[1].proposal_id, 2, "pre-cut entries stay listed, newest first");
    assert_eq!(blocks[2].proposal_id, 1);
    assert_eq!(blocks[1].surface, "memory");
    assert!(
        blocks[1].signers.is_empty() && blocks[2].signers.is_empty(),
        "the pre-cut block signatures are gone with the history"
    );
    assert_eq!(blocks[3].payload, text("Chess Club"));
    assert_eq!(
        blocks[3].signers,
        vec!["petra".to_string(), "walter".to_string()],
        "the genesis view rebuilds from the blob's founding table"
    );
}

/// The document that a patch makes of another, where it fits.
fn patched(doc: Option<&String>, patch: &str) -> Option<String> {
    let mut hunk = patch.lines().skip_while(|l| !l.starts_with("@@"));
    hunk.next();
    let mut old = match doc {
        Some(_) if patch.contains("new file mode") => return None,
        Some(d) => d.lines(),
        None => "".lines(),
    };
    let mut out = String::new();
    for l in hunk {
        let rest = &l[1..];
        if !l.starts_with('+') && old.next() != Some(rest) {
            return None;
        }
        if !l.starts_with('-') {
            out.push_str(rest);
            out.push('\n');
        }
    }
    Some(out)
}

fn path_of(patch: &str) -> String {
    patch.lines().find_map(|l| l.strip_prefix("+++ b/")).expect("a path").to_string()
}

/// What the applied patches make.
fn documents(s: &State) -> BTreeMap<String, String> {
    let mut docs = BTreeMap::new();
    for e in entries_of(&s.applied, Surface::Memory) {
        let patch = e.payload.text("value").expect("a patch");
        let path = path_of(patch);
        if let Some(doc) = patched(docs.get(&path), patch) {
            docs.insert(path, doc);
        }
    }
    docs
}

/// Works the effects off as a host does, and gives back what was sent.
fn host(s: &mut State) -> Vec<WorkspaceEvent> {
    let mut out = Vec::new();
    let mut waiting: VecDeque<Effect> = VecDeque::new();
    loop {
        for effect in std::mem::take(&mut s.effects).into_iter().rev() {
            waiting.push_front(effect);
        }
        let Some(effect) = waiting.pop_front() else {
            return out;
        };
        match effect {
            Effect::Send { body } => out.push(body),
            Effect::WikiMoved { open, .. } => {
                let docs = documents(s);
                let stale: Vec<u64> = open
                    .into_iter()
                    .filter(|id| {
                        let card = s.proposals.get(*id).expect("card");
                        let patch = card.payload.text("value").expect("a patch");
                        patched(docs.get(&path_of(patch)), patch).is_none()
                    })
                    .collect();
                s.wiki_superseded(&stale);
            }
            Effect::Sealed { id, block } => s.sealed_block_written(true, block, id),
            _ => {}
        }
    }
}

fn wiki_patch(patch: &str) -> Payload {
    object(vec![("op", text("wiki_patch")), ("summary", text("x")), ("value", text(patch))])
}

fn wiki_change(id: u64, patch: &str) -> ChainChange {
    ChainChange::Applied {
        proposal_id: id,
        surface: Surface::Memory,
        payload: wiki_patch(patch),
    }
}

fn seal_wiki(s: &mut State, b: &Builder, peer: &str, id: u64, patch: &str) {
    let target = height(s) + 1;
    s.receive_proposed(id, Surface::Memory, wiki_patch(patch), "peer");
    host(s);
    let bytes = approval_bytes(&b.republic_id, target, &wiki_change(id, patch));
    let sig = identity_sign(b.key(peer), &bytes);
    s.receive_approval(id, peer, target, &sig);
    s.chain_sign_and_gossip_approval(id);
    let told = host(s);
    assert!(told.iter().any(|e| matches!(e, WorkspaceEvent::Committed { .. })), "told");
    assert_eq!(height(s), target, "sealed");
}

const ADD_A: &str = "diff --git a/a.md b/a.md\nnew file mode 100644\n--- /dev/null\n+++ b/a.md\n@@ -0,0 +1,2 @@\n+hello\n+world\n";
const EDIT_A_1: &str = "diff --git a/a.md b/a.md\n--- a/a.md\n+++ b/a.md\n@@ -1,2 +1,2 @@\n-hello\n+hallo\n world\n";
const EDIT_A_2: &str = "diff --git a/a.md b/a.md\n--- a/a.md\n+++ b/a.md\n@@ -1,2 +1,2 @@\n-hello\n+servus\n world\n";
const ADD_B: &str = "diff --git a/b.md b/b.md\nnew file mode 100644\n--- /dev/null\n+++ b/b.md\n@@ -0,0 +1,1 @@\n+disjoint\n";

#[test]
fn a_sealed_wiki_patch_supersedes_overlapping_pending_patches() {
    let b = Builder::new(&["petra", "walter"], 2);
    let mut walter = chain_signer("walter", &b, b.blocks.clone());
    seal_wiki(&mut walter, &b, "petra", 10, ADD_A);
    assert_eq!(
        documents(&walter).get("a.md").map(String::as_str),
        Some("hello\nworld\n"),
        "the fold serves the sealed base"
    );

    for (id, patch) in [(11, EDIT_A_1), (12, EDIT_A_2), (13, ADD_B)] {
        walter.receive_proposed(id, Surface::Memory, wiki_patch(patch), "petra");
        host(&mut walter);
    }

    seal_wiki(&mut walter, &b, "petra", 11, EDIT_A_1);
    let p12 = walter.proposals.get(12).cloned().expect("card 12");
    assert_eq!(p12.state, ProposalState::Rejected, "overlap retires");
    assert!(p12.superseded, "…as SUPERSEDED, not declined");
    assert!(p12.declined_by.is_empty(), "no vote is forged");
    let p13 = walter.proposals.get(13).cloned().expect("card 13");
    assert_eq!(p13.state, ProposalState::Proposed, "disjoint stays open");
    assert!(!p13.superseded);

    seal_wiki(&mut walter, &b, "petra", 13, ADD_B);
    let docs = documents(&walter);
    assert_eq!(docs.get("b.md").map(String::as_str), Some("disjoint\n"));
    assert_eq!(docs.get("a.md").map(String::as_str), Some("hallo\nworld\n"));

    walter.receive_proposed(14, Surface::Memory, wiki_patch(EDIT_A_2), "petra");
    host(&mut walter);
    let p14 = walter.proposals.get(14).cloned().expect("card 14");
    assert_eq!(p14.state, ProposalState::Rejected);
    assert!(p14.superseded);
    assert_eq!(
        entries_of(&walter.applied, Surface::Memory).len(),
        3,
        "ADD_A + EDIT_A_1 + ADD_B applied"
    );
}

/// The heights at which `id` was approved, among what was sent.
fn approved_at(events: &[WorkspaceEvent], of: u64) -> Vec<u64> {
    events
        .iter()
        .filter_map(|e| match e {
            WorkspaceEvent::Approved { id, height, .. } if *id == of => Some(*height),
            _ => None,
        })
        .collect()
}

/// A chain whose first block adds `a.md`; a signer that approved an edit of it,
/// an own document and an edit of the organization; and the block that moves the
/// base next.
fn with_votes() -> (Builder, State) {
    let mut b = Builder::new(&["petra", "walter"], 2);
    let both = ["petra", "walter"];
    b.commit(wiki_change(10, ADD_A), &both);
    let mut walter = chain_signer("walter", &b, b.blocks.clone());
    walter.receive_proposed(12, Surface::Memory, wiki_patch(EDIT_A_2), "petra");
    walter.receive_proposed(13, Surface::Memory, wiki_patch(ADD_B), "petra");
    walter.receive_proposed(14, Surface::Organization, edit("set_name", "New"), "petra");
    host(&mut walter);
    for id in [12, 13, 14] {
        walter.chain_sign_and_gossip_approval(id);
    }
    let sent = host(&mut walter);
    assert_eq!(approved_at(&sent, 12), vec![2]);
    b.commit(wiki_change(11, EDIT_A_1), &both);
    (b, walter)
}

#[test]
fn votes_on_patches_wait_until_it_is_known_which_are_left_behind() {
    let (b, mut walter) = with_votes();
    walter.receive_block(b.blocks[2].clone());
    assert_eq!(height(&walter), 2);
    assert!(walter.votes_wait);
    assert_eq!(walter.wiki_asked, 1);
    let asked: Vec<Effect> = walter
        .effects
        .iter()
        .filter(|e| matches!(e, Effect::WikiMoved { .. }))
        .cloned()
        .collect();
    assert_eq!(
        asked,
        vec![Effect::WikiMoved { by: Some(wiki_patch(EDIT_A_1)), open: vec![12, 13] }]
    );
    let early = sent(&walter);
    assert!([12, 13, 14].iter().all(|id| approved_at(&early, *id).is_empty()), "nothing yet");

    let later = host(&mut walter);
    assert!(approved_at(&later, 12).is_empty(), "left behind, so never signed again");
    assert_eq!(approved_at(&later, 13), vec![3]);
    assert_eq!(approved_at(&later, 14), vec![3]);
    assert!(!walter.votes_wait);
    assert_eq!(walter.wiki_asked, 0);
    assert_eq!(walter.pending_sigs.get(12), None, "its votes are dropped");
    let closed = walter.proposals.get(12).expect("card");
    assert!(closed.superseded && closed.state == ProposalState::Rejected);
    assert_eq!(closed.voted, vec!["walter".to_string()], "who voted stays on the card");
}

#[test]
fn held_blocks_wait_for_the_votes() {
    let (mut b, mut walter) = with_votes();
    b.commit_org(20, "set_charter", "c", &["petra", "walter"]);
    walter.receive_block(b.blocks[3].clone());
    host(&mut walter);
    walter.receive_block(b.blocks[2].clone());
    assert_eq!(height(&walter), 2, "the next one waits");
    assert!(walter.drain_waits);
    let later = host(&mut walter);
    assert_eq!(height(&walter), 3);
    assert_eq!(walter.blocks, b.blocks);
    assert!(!walter.drain_waits);
    assert_eq!(approved_at(&later, 13), vec![3, 4], "moved at each height");
}

#[test]
fn only_open_patches_are_retired() {
    let (_, mut walter) = with_votes();
    let before = walter.proposals.get(14).cloned().expect("card");
    walter.wiki_superseded(&vec![14, 10, 99]);
    assert_eq!(walter.proposals.get(14), Some(&before), "no patch");
    assert_eq!(walter.proposals.get(10).expect("card").state, ProposalState::Applied);
    assert!(walter.proposals.get(99).is_none());
    walter.wiki_superseded(&vec![12]);
    assert!(walter.proposals.get(12).expect("card").superseded);
    assert!(!walter.proposals.get(13).expect("card").superseded);
}
