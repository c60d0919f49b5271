#![allow(dead_code, unused_imports)]

use molt_engine::canonical::{
    approval_bytes, checkpoint_canonical_bytes, restore_consent_bytes, seat_proof_bytes,
    GENESIS_PREV,
};
use molt_engine::checkpoint::collect_run;
use molt_engine::fold::{checkpoint_state, checkpoint_state_hash, fold_one, fold_state};
use molt_engine::identity::{
    content_hash, identity_public, identity_sign, identity_verify, republic_id, SigningKey,
};
use molt_engine::membership::membership_payload;
use molt_engine::model::{
    Anchor, AppliedEntry, AppliedGroup, ChainBlock, ChainChange, CheckpointState, MemberIdentity,
    MembershipOp, RelayDeclaration, RosterAttestation, Surface,
};
use molt_engine::payload::{Field, Payload};
use molt_engine::signers::{block_hash, ChainHead};
use molt_engine::state::{
    Effect, Event, HeightHash, PendingRecovery, ProposalRecord, ProposalState,
    RecoverProgressReport, ReplicaState, State, WorkspaceEvent,
};
use molt_engine::table::Table;
use molt_engine::walk::{
    sealed_roster_from_blob, sealed_roster_from_genesis, verify_chain, verify_served,
    verify_suffix_chain,
};
use molt_engine::sealing::AUTO_CHECKPOINT_MIN_LEN;

/// Builds real threshold-signed chains: the founding is sealed by everybody,
/// later blocks by the named members.
#[derive(Clone)]
struct Builder {
    republic_id: String,
    keys: Vec<(String, SigningKey)>,
    blocks: Vec<ChainBlock>,
    head_hash: String,
}

impl Builder {
    fn new(members: &[&str], rule_m: u8) -> Builder {
        Builder::new_on_relays(members, rule_m, Vec::new())
    }

    fn new_on_relays(members: &[&str], rule_m: u8, relays: Vec<String>) -> Builder {
        let mut keys: Vec<(String, SigningKey)> = Vec::new();
        let mut identities: Vec<MemberIdentity> = Vec::new();
        for (i, m) in members.iter().enumerate() {
            let sk = SigningKey { secret: [u8::try_from(i + 1).unwrap_or(1); 32] };
            identities.push(MemberIdentity {
                member: (*m).to_string(),
                identity_pk: identity_public(&sk),
                nostr_pk: "cc".repeat(32),
            });
            keys.push(((*m).to_string(), sk));
        }
        let rule_n = u8::try_from(members.len()).expect("small roster");
        let republic_id = republic_id("Chess Club", rule_m, rule_n, &identities);
        let change = ChainChange::Genesis {
            name: "Chess Club".to_string(),
            republic_id: republic_id.clone(),
            rule_m,
            rule_n,
            identities,
            agenda: "play chess".to_string(),
            features: None,
            relays,
        };
        let mut b = Builder {
            republic_id,
            keys,
            blocks: Vec::new(),
            head_hash: GENESIS_PREV.to_string(),
        };
        let block = b.seal(0, change, members);
        b.push(block);
        b
    }

    /// Signs `change` at `height` with each named member.
    fn seal(&self, height: u64, change: ChainChange, signers: &[&str]) -> ChainBlock {
        let bytes = approval_bytes(&self.republic_id, height, &change);
        let sigs = signers
            .iter()
            .map(|name| RosterAttestation {
                member: (*name).to_string(),
                sig: identity_sign(self.key(name), &bytes),
            })
            .collect();
        ChainBlock { height, prev: self.head_hash.clone(), change, sigs }
    }

    fn push(&mut self, block: ChainBlock) {
        self.head_hash = block_hash(&self.republic_id, &block);
        self.blocks.push(block);
    }

    fn next_height(&self) -> u64 {
        u64::try_from(self.blocks.len()).expect("small chain")
    }

    fn commit(&mut self, change: ChainChange, signers: &[&str]) {
        let block = self.seal(self.next_height(), change, signers);
        self.push(block);
    }

    /// Commits a note signed by `signers` at the next height.
    fn commit_applied(&mut self, proposal_id: u64, signers: &[&str]) {
        self.commit(
            ChainChange::Applied {
                proposal_id,
                surface: Surface::Memory,
                payload: note(proposal_id),
            },
            signers,
        );
    }

    /// Commits an edit of the organization.
    fn commit_org(&mut self, proposal_id: u64, op: &str, value: &str, signers: &[&str]) {
        self.commit(
            ChainChange::Applied {
                proposal_id,
                surface: Surface::Organization,
                payload: edit(op, value),
            },
            signers,
        );
    }

    /// Commits a wiki patch that adds a document.
    fn commit_wiki(&mut self, proposal_id: u64, path: &str, body: &str, signers: &[&str]) {
        self.commit(
            ChainChange::Applied {
                proposal_id,
                surface: Surface::Memory,
                payload: edit("wiki_patch", &new_file_patch(path, body)),
            },
            signers,
        );
    }

    /// Commits a returned seat that names a new transport key.
    fn commit_restored(&mut self, member: &str, nostr_pk: &str, signers: &[&str]) {
        let change = restored(member, &self.pk(member), Some(nostr_pk), None);
        self.commit(change, signers);
    }

    fn key(&self, member: &str) -> &SigningKey {
        &self.keys.iter().find(|(m, _)| m == member).expect("known member").1
    }

    fn pk(&self, member: &str) -> String {
        identity_public(self.key(member))
    }
}

fn text(t: &str) -> Payload {
    Payload::Text(t.to_string())
}

fn object(fields: Vec<(&str, Payload)>) -> Payload {
    Payload::Object(
        fields
            .into_iter()
            .map(|(name, value)| Field { name: name.to_string(), value })
            .collect(),
    )
}

fn note(id: u64) -> Payload {
    object(vec![("op", text("add_note")), ("id", Payload::Count(id))])
}

fn edit(op: &str, value: &str) -> Payload {
    object(vec![("op", text(op)), ("value", text(value))])
}

fn new_file_patch(path: &str, body: &str) -> String {
    let lines: Vec<&str> = body.split('\n').collect();
    let mut patch = format!(
        "diff --git a/{path} b/{path}\nnew file mode 100644\n--- /dev/null\n+++ b/{path}\n@@ -0,0 +1,{} @@\n",
        lines.len()
    );
    for l in lines {
        patch.push('+');
        patch.push_str(l);
        patch.push('\n');
    }
    patch
}

fn restored(
    member: &str,
    identity_pk: &str,
    nostr_pk: Option<&str>,
    consent: Option<String>,
) -> ChainChange {
    ChainChange::Membership {
        op: MembershipOp::Restored,
        member: member.to_string(),
        identity_pk: identity_pk.to_string(),
        nostr_pk: nostr_pk.map(str::to_string),
        relays: Vec::new(),
        consent,
    }
}

/// A seat's state that roots in the founding of `b` and holds `chain`.
fn peer_of(member: &str, roster: &[&str], b: &Builder, chain: Vec<ChainBlock>) -> State {
    let mut peer = State::new();
    peer.now = 1_751_000_000;
    peer.replica = Some(ReplicaState {
        name: "Chess Club".to_string(),
        member: member.to_string(),
        roster: roster.iter().map(|m| m.to_string()).collect(),
        rule_m: 2,
        identities: Vec::new(),
        agenda: "play chess".to_string(),
        features: None,
        republic_id: b.republic_id.clone(),
        founded_ts: 0,
    });
    peer.adopt_chain(chain);
    peer.effects.clear();
    peer
}

fn chain_peer(member: &str, b: &Builder, chain: Vec<ChainBlock>) -> State {
    peer_of(member, &["petra", "walter"], b, chain)
}

fn chain_peer_3(member: &str, b: &Builder) -> State {
    peer_of(member, &["petra", "walter", "dora"], b, b.blocks.clone())
}

/// A peer that can also sign.
fn chain_signer(member: &str, b: &Builder, chain: Vec<ChainBlock>) -> State {
    let mut s = chain_peer(member, b, chain);
    s.identity_sk = Some(*b.key(member));
    s
}

/// A chain of exactly `len` blocks.
fn grown_chain(len: usize) -> Builder {
    let mut b = Builder::new(&["petra", "walter"], 2);
    for id in 0..len.saturating_sub(1) {
        b.commit_applied(u64::try_from(id + 100).expect("small id"), &["petra", "walter"]);
    }
    assert_eq!(b.blocks.len(), len);
    b
}

/// A returning member's consent, signed with its own key.
fn consent_for(b: &Builder, member: &str, nostr_pk: &str) -> String {
    identity_sign(
        b.key(member),
        &restore_consent_bytes(&b.republic_id, member, &b.pk(member), nostr_pk),
    )
}

fn height(s: &State) -> u64 {
    s.head.as_ref().expect("head").height
}

/// The signature that a state holds of a member for a proposal.
fn sig_of(s: &State, id: u64, member: &str) -> String {
    s.pending_sigs
        .get(id)
        .expect("pending set")
        .sigs
        .iter()
        .find(|a| a.member == member)
        .expect("signed")
        .sig
        .clone()
}

/// The entries of a surface in a summary.
fn entries_of(groups: &Vec<AppliedGroup>, surface: Surface) -> Vec<AppliedEntry> {
    groups
        .iter()
        .find(|g| g.surface == surface)
        .map(|g| g.entries.clone())
        .unwrap_or_default()
}

/// The approvals and other events that a state asked its host to send.
fn sent(s: &State) -> Vec<WorkspaceEvent> {
    s.effects
        .iter()
        .filter_map(|e| match e {
            Effect::Send { body } => Some(body.clone()),
            _ => None,
        })
        .collect()
}

/// `s` hears a membership proposal.
fn hear_membership(s: &mut State, id: u64, change: ChainChange, canonical_anchor: bool) {
    let ChainChange::Membership { op, member, identity_pk, nostr_pk, relays, consent } = change
    else {
        panic!("a membership change")
    };
    s.receive_membership_proposal(
        id,
        op,
        &member,
        &identity_pk,
        nostr_pk,
        relays,
        consent,
        canonical_anchor,
    );
}


fn has_cut(s: &State) -> bool {
    pending_cut(s).is_some()
}

/// The height of the cut that is proposed in `s`, if one is.
fn pending_cut(s: &State) -> Option<u64> {
    s.proposal_changes.rows().iter().find_map(|r| match r.value {
        ChainChange::Checkpoint { upto, .. } => Some(*upto),
        _ => None,
    })
}

#[test]
fn a_far_future_buffered_block_does_not_pin_the_auto_checkpoint() {
    let mut b = Builder::new(&["petra", "walter"], 2);
    for i in 1..=32 {
        b.commit_applied(i, &["petra", "walter"]);
    }
    let head_h = b.blocks.last().expect("blocks").height;
    let mut dummy = b.blocks[1].clone();

    let mut peer = chain_peer("petra", &b, b.blocks.clone());
    dummy.height = head_h + 2;
    peer.pending_blocks.insert(head_h + 2, dummy.clone());
    peer.maybe_auto_checkpoint();
    assert!(has_cut(&peer), "a gap block cannot apply next - the cut must still be proposed");

    let mut peer = chain_peer("petra", &b, b.blocks.clone());
    dummy.height = head_h + 1;
    peer.pending_blocks.insert(head_h + 1, dummy);
    peer.maybe_auto_checkpoint();
    assert!(!has_cut(&peer), "an adjacent buffered block keeps pinning the auto-checkpoint");
}

#[test]
fn only_one_cut_per_head_registers() {
    let b = Builder::new(&["petra", "walter"], 2);
    let mut walter = chain_signer("walter", &b, b.blocks.clone());
    let ours = checkpoint_state_hash(&walter.own_checkpoint_state(0).expect("own projection"));
    for id in 50..60u64 {
        walter.receive_checkpoint_proposal(id, 0, &ours);
    }
    let cuts = walter
        .proposal_changes
        .rows()
        .iter()
        .filter(|r| matches!(r.value, ChainChange::Checkpoint { .. }))
        .count();
    assert_eq!(cuts, 1, "the first id IS the cut for this head");
}

fn cut_block(b: &Builder, height: u64, upto: u64, state_hash: String, signers: &[&str]) -> ChainBlock {
    b.seal(height, ChainChange::Checkpoint { upto, state_hash }, signers)
}

#[test]
fn a_checkpoint_block_verifies_against_the_own_projection() {
    let mut b = Builder::new(&["petra", "walter", "dora"], 2);
    b.commit_applied(1, &["petra", "walter"]);
    b.commit_applied(2, &["walter", "dora"]);
    let state = checkpoint_state(&b.blocks, 2).expect("state@2");
    let verdict = |block: ChainBlock| {
        let mut chain = b.blocks.clone();
        chain.push(block);
        verify_chain(&chain)
    };
    let head = verdict(cut_block(&b, 3, 2, checkpoint_state_hash(&state), &["petra", "walter"]))
        .expect("a truthful checkpoint verifies");
    assert_eq!(head.height, 3);
    let forged = cut_block(&b, 3, 2, content_hash(b"not the projection"), &["petra", "walter"]);
    assert!(verdict(forged).is_err(), "a forged checkpoint kills the chain");
    let self_ref = cut_block(&b, 3, 3, checkpoint_state_hash(&state), &["petra", "walter"]);
    assert!(verdict(self_ref).is_err(), "upto >= height is structural nonsense");
}

#[test]
fn a_suffix_chain_bootstraps_from_a_checkpoint() {
    let mut b = Builder::new(&["petra", "walter", "dora"], 2);
    b.commit_applied(1, &["petra", "walter"]);
    b.commit_applied(2, &["walter", "dora"]);
    let blob = checkpoint_state(&b.blocks, 2).expect("state@2");
    let anchor = cut_block(&b, 3, 2, checkpoint_state_hash(&blob), &["petra", "walter"]);
    b.push(anchor);
    b.commit_applied(7, &["petra", "dora"]);
    let suffix: Vec<ChainBlock> = b.blocks[3..].to_vec();
    assert_eq!(suffix.len(), 2, "anchor + one applied block");

    let head = verify_suffix_chain(&blob, &suffix, &b.republic_id)
        .expect("the suffix verifies from the checkpoint anchor");
    assert_eq!(head.height, 4);
    assert_eq!(head.identities.len(), 3, "roster comes from the blob");

    let mut forged = blob.clone();
    forged.roster[0].identity_pk = "00".repeat(32);
    assert!(
        verify_suffix_chain(&forged, &suffix, &b.republic_id).is_err(),
        "a doctored roster no longer hashes to the signed state"
    );
    let mut forged_npk = blob.clone();
    forged_npk.roster[0].nostr_pk = "ee".repeat(32);
    assert!(
        verify_suffix_chain(&forged_npk, &suffix, &b.republic_id).is_err(),
        "a doctored roster nostr anchor no longer hashes to the signed state"
    );
    let mut alien = blob.clone();
    alien.founding_name = "Fake Club".to_string();
    let alien_anchor_hash = checkpoint_state_hash(&alien);
    let mut alien_suffix = suffix.clone();
    if let ChainChange::Checkpoint { state_hash, .. } = &mut alien_suffix[0].change {
        *state_hash = alien_anchor_hash;
    }
    assert!(
        verify_suffix_chain(&alien, &alien_suffix, &b.republic_id).is_err(),
        "a forged founding does not recompute to the real republic id"
    );
    let mut replay = b.clone();
    replay.commit_applied(1, &["petra", "walter"]);
    let replay_suffix: Vec<ChainBlock> = replay.blocks[3..].to_vec();
    assert!(
        verify_suffix_chain(&blob, &replay_suffix, &b.republic_id).is_err(),
        "an id consumed below the cut cannot re-apply in the suffix"
    );
    let weak_anchor = cut_block(&b, 3, 2, checkpoint_state_hash(&blob), &["petra"]);
    assert!(
        verify_suffix_chain(&blob, &[weak_anchor], &b.republic_id).is_err(),
        "one signature is not a threshold"
    );
}

#[test]
fn a_checkpoint_proposal_seals_via_verify_before_sign() {
    let mut b = Builder::new(&["petra", "walter"], 2);
    b.commit_applied(1, &["petra", "walter"]);
    let mut petra = chain_signer("petra", &b, b.blocks.clone());
    let mut walter = chain_signer("walter", &b, b.blocks.clone());

    let id = petra.cmd_propose_checkpoint().expect("propose");
    assert_eq!(
        petra.pending_sigs.get(id).map(|p| p.sigs.len()),
        Some(1),
        "the proposer co-signed its own cut"
    );
    let (upto, state_hash) = match petra.proposal_changes.get(id) {
        Some(ChainChange::Checkpoint { upto, state_hash }) => (*upto, state_hash.clone()),
        other => panic!("unexpected change: {other:?}"),
    };
    assert_eq!(upto, 1, "the cut is the current head (B-F1)");

    walter.receive_checkpoint_proposal(id, upto, "00");
    assert!(!walter.proposal_changes.contains_key(id));
    assert!(!walter.pending_sigs.contains_key(id));

    walter.receive_checkpoint_proposal(id, upto, &state_hash);
    let petra_sig = sig_of(&petra, id, "petra");
    walter.receive_approval(id, "petra", 2, &petra_sig);
    assert_eq!(height(&walter), 2, "the checkpoint sealed at 2-of-2 on walter");
    assert!(matches!(
        walter.blocks.last().expect("block").change,
        ChainChange::Checkpoint { .. }
    ));
    let walter_sig = walter
        .blocks
        .last()
        .expect("block")
        .sigs
        .iter()
        .find(|a| a.member == "walter")
        .expect("walter signed")
        .sig
        .clone();
    petra.receive_approval(id, "walter", 2, &walter_sig);
    assert_eq!(height(&petra), 2);
    assert_eq!(
        block_hash(&b.republic_id, petra.blocks.last().expect("b")),
        block_hash(&b.republic_id, walter.blocks.last().expect("b")),
        "both nodes sealed the byte-identical checkpoint block"
    );
    assert!(!petra.proposal_changes.contains_key(id));
    assert!(!walter.proposal_changes.contains_key(id));
}

#[test]
fn a_sealed_checkpoint_drops_history_and_the_holder_keeps_governing() {
    let mut b = Builder::new(&["petra", "walter"], 2);
    b.commit_applied(1, &["petra", "walter"]);
    let mut walter = chain_signer("walter", &b, b.blocks.clone());
    let hash = checkpoint_state_hash(&checkpoint_state(&b.blocks, 1).expect("state"));
    walter.receive_checkpoint_proposal(40, 1, &hash);
    let change = ChainChange::Checkpoint { upto: 1, state_hash: hash };
    let bytes = approval_bytes(&b.republic_id, 2, &change);
    let petra_sig = identity_sign(b.key("petra"), &bytes);
    walter.receive_approval(40, "petra", 2, &petra_sig);
    assert_eq!(height(&walter), 2);
    assert_eq!(walter.blocks.len(), 1, "history below the cut is dropped");
    assert!(matches!(
        walter.blocks.first().expect("anchor").change,
        ChainChange::Checkpoint { .. }
    ));
    let blob = walter.checkpoint_blob.clone().expect("blob anchors the holder");
    assert_eq!(blob.upto, 1);
    assert_eq!(
        entries_of(&walter.applied, Surface::Memory).len(),
        1,
        "the pre-cut applied entry stays readable"
    );
    let payload = object(vec![("op", text("add_note")), ("title", text("post-cut"))]);
    walter.receive_proposed(41, Surface::Memory, payload.clone(), "peer");
    let post = ChainChange::Applied { proposal_id: 41, surface: Surface::Memory, payload };
    let bytes = approval_bytes(&b.republic_id, 3, &post);
    let petra_sig = identity_sign(b.key("petra"), &bytes);
    walter.receive_approval(41, "petra", 3, &petra_sig);
    walter.chain_sign_and_gossip_approval(41);
    assert_eq!(height(&walter), 3, "the pruned holder extends its suffix");
    assert_eq!(
        entries_of(&walter.applied, Surface::Memory).len(),
        2,
        "pre- and post-cut entries read together"
    );
    let mut reopened = chain_peer("walter", &b, b.blocks.clone());
    reopened.checkpoint_blob = Some(blob);
    reopened.adopt_chain(walter.blocks.clone());
    assert_eq!(height(&reopened), 3, "a pruned chain re-adopts from the persisted blob");
    assert_eq!(entries_of(&reopened.applied, Surface::Memory).len(), 2);
    let card = |pid: u64| {
        let p = reopened.proposals.get(pid).unwrap_or_else(|| panic!("card {pid}"));
        assert_eq!(p.state, ProposalState::Applied);
    };
    card(1);
    assert!(
        reopened.applied_sigs.get(1).is_none(),
        "pre-cut: only chain-provable votes show"
    );
    card(41);
    assert!(
        reopened.applied_sigs.get(41).is_some_and(|sigs| sigs.iter().any(|a| a.member == "petra")),
        "post-cut: the live block's signers show"
    );
}

/// Drives one proposal through `s` to a sealed block.
fn seal_one(s: &mut State, b: &Builder, peer: &str, id: u64) {
    let target = height(s) + 1;
    s.receive_proposed(id, Surface::Memory, note(id), "peer");
    let change =
        ChainChange::Applied { proposal_id: id, surface: Surface::Memory, payload: note(id) };
    let bytes = approval_bytes(&b.republic_id, target, &change);
    let sig = identity_sign(b.key(peer), &bytes);
    s.receive_approval(id, peer, target, &sig);
    s.chain_sign_and_gossip_approval(id);
    assert_eq!(height(s), target, "the driven proposal seals");
}

#[test]
fn the_lowest_member_auto_proposes_a_checkpoint_at_the_trigger_length() {
    let b = grown_chain(AUTO_CHECKPOINT_MIN_LEN - 2);
    let mut petra = chain_signer("petra", &b, b.blocks.clone());
    seal_one(&mut petra, &b, "walter", 90);
    assert_eq!(pending_cut(&petra), None, "below the trigger: no cut");
    seal_one(&mut petra, &b, "walter", 300);
    assert_eq!(
        pending_cut(&petra),
        Some(height(&petra)),
        "the lowest member proposes the cut at the fresh head"
    );

    let mut walter = chain_signer("walter", &b, b.blocks.clone());
    seal_one(&mut walter, &b, "petra", 90);
    seal_one(&mut walter, &b, "petra", 300);
    assert_eq!(pending_cut(&walter), None, "a non-lowest member never auto-proposes");
}

#[test]
fn a_passively_applied_block_never_auto_proposes() {
    let mut b = grown_chain(AUTO_CHECKPOINT_MIN_LEN - 1);
    let mut petra = chain_signer("petra", &b, b.blocks.clone());
    b.commit_applied(400, &["petra", "walter"]);
    petra.receive_block(b.blocks.last().expect("built block").clone());
    assert_eq!(petra.blocks.len(), AUTO_CHECKPOINT_MIN_LEN, "passively at length");
    assert_eq!(pending_cut(&petra), None, "a passively applied block never triggers the cut");
    seal_one(&mut petra, &b, "walter", 90);
    assert_eq!(
        pending_cut(&petra),
        Some(height(&petra)),
        "the node's own seal at the live head triggers the cut"
    );
}

#[test]
fn no_auto_checkpoint_while_a_vote_is_open() {
    let b = grown_chain(AUTO_CHECKPOINT_MIN_LEN - 1);
    let mut petra = chain_signer("petra", &b, b.blocks.clone());
    petra.receive_proposed(91, Surface::Memory, note(91), "peer");
    seal_one(&mut petra, &b, "walter", 90);
    assert_eq!(pending_cut(&petra), None, "no cut while another vote is open");
    let target = height(&petra) + 1;
    let change =
        ChainChange::Applied { proposal_id: 91, surface: Surface::Memory, payload: note(91) };
    let bytes = approval_bytes(&b.republic_id, target, &change);
    let sig = identity_sign(b.key("walter"), &bytes);
    petra.receive_approval(91, "walter", target, &sig);
    petra.chain_sign_and_gossip_approval(91);
    assert_eq!(
        pending_cut(&petra),
        Some(target),
        "the commit that clears the last open vote fires the cut"
    );
}

#[test]
fn a_staled_auto_cut_re_proposes_on_the_next_commit() {
    let b = grown_chain(AUTO_CHECKPOINT_MIN_LEN - 1);
    let mut petra = chain_signer("petra", &b, b.blocks.clone());
    seal_one(&mut petra, &b, "walter", 90);
    let first_cut = pending_cut(&petra).expect("auto cut pending");
    seal_one(&mut petra, &b, "walter", 300);
    let head = height(&petra);
    assert_eq!(pending_cut(&petra), Some(head), "the staled cut is re-proposed at the new head");
    assert!(first_cut < head, "the old cut was swept, not resurrected");
}

#[test]
fn a_lagging_holder_re_anchors_on_a_served_blob() {
    let mut b = Builder::new(&["petra", "walter"], 2);
    b.commit_applied(1, &["petra", "walter"]);
    let blob = checkpoint_state(&b.blocks, 1).expect("state@1");
    let anchor = cut_block(&b, 2, 1, checkpoint_state_hash(&blob), &["petra", "walter"]);
    b.push(anchor.clone());
    b.commit_applied(7, &["petra", "walter"]);
    let suffix_tail = b.blocks.last().expect("tail").clone();

    let mut lag = chain_peer("walter", &b, b.blocks[..1].to_vec());
    assert_eq!(height(&lag), 0);
    let mut forged = blob.clone();
    forged.founding_name = "Fake".to_string();
    lag.receive_checkpoint_blob(forged);
    assert!(lag.pending_served_blob.is_none());
    lag.receive_checkpoint_blob(blob.clone());
    lag.receive_block(suffix_tail);
    assert_eq!(height(&lag), 0, "waits for the anchor");
    lag.receive_block(anchor);
    assert_eq!(height(&lag), 3, "re-anchored on blob + anchor + suffix");
    assert!(lag.checkpoint_blob.is_some());
    assert_eq!(
        entries_of(&lag.applied, Surface::Memory).len(),
        2,
        "pre-cut and post-cut entries both readable"
    );
}

#[test]
fn a_checkpoint_proposal_never_signs_a_colliding_id() {
    let mut b = Builder::new(&["petra", "walter"], 2);
    b.commit_applied(1, &["petra", "walter"]);
    let mut walter = chain_signer("walter", &b, b.blocks.clone());
    let hash = checkpoint_state_hash(&checkpoint_state(&b.blocks, 1).expect("state"));
    hear_membership(&mut walter, 5, restored("petra", &b.pk("petra"), None, None), true);
    walter.receive_checkpoint_proposal(5, 1, &hash);
    assert!(!walter.pending_sigs.contains_key(5), "an occupied id must never be auto-signed");
    assert!(matches!(walter.proposal_changes.get(5), Some(ChainChange::Membership { .. })));
    walter.receive_proposed(6, Surface::Memory, object(vec![("op", text("add_note"))]), "peer");
    walter.receive_checkpoint_proposal(6, 1, &hash);
    assert!(!walter.pending_sigs.contains_key(6));
    walter.receive_checkpoint_proposal(9, 1, &hash);
    let sigs = walter.pending_sigs.get(9).map(|p| p.sigs.len());
    walter.receive_checkpoint_proposal(9, 1, &hash);
    assert_eq!(walter.pending_sigs.get(9).map(|p| p.sigs.len()), sigs);
}

#[test]
fn a_stale_checkpoint_proposal_dies_on_rebase() {
    let mut b = Builder::new(&["petra", "walter"], 2);
    b.commit_applied(1, &["petra", "walter"]);
    let mut petra = chain_signer("petra", &b, b.blocks.clone());
    let id = petra.cmd_propose_checkpoint().expect("propose");
    b.commit_applied(7, &["petra", "walter"]);
    petra.receive_block(b.blocks.last().expect("block").clone());
    assert_eq!(height(&petra), 2);
    assert!(
        !petra.proposal_changes.contains_key(id) && !petra.pending_sigs.contains_key(id),
        "the stale cut is dropped, not re-signed"
    );
}

/// Applies one patch to the document `a.md`.
fn patched(before: &str, patch: &str) -> String {
    let mut old = before.lines();
    let mut out = String::new();
    for line in patch.lines().skip_while(|l| !l.starts_with("@@")).skip(1) {
        if let Some(added) = line.strip_prefix('+') {
            out.push_str(added);
            out.push('\n');
        } else {
            let kept = old.next().expect("a line");
            if line.starts_with(' ') {
                out.push_str(kept);
                out.push('\n');
            }
        }
    }
    out
}

fn wiki_fold(entries: &[AppliedEntry]) -> String {
    entries.iter().fold(String::new(), |t, e| patched(&t, &e.payload.value_text()))
}

#[test]
fn a_checkpoint_cut_keeps_the_wiki_fold_identical() {
    const ADD_A: &str = "diff --git a/a.md b/a.md\nnew file mode 100644\n--- /dev/null\n+++ b/a.md\n@@ -0,0 +1,2 @@\n+hello\n+world\n";
    const EDIT_A: &str = "diff --git a/a.md b/a.md\n--- a/a.md\n+++ b/a.md\n@@ -1,2 +1,2 @@\n-hello\n+hallo\n world\n";
    let pool = vec!["wss://relay.one".to_string()];
    let mut b = Builder::new_on_relays(&["petra", "walter"], 2, pool);
    for (id, patch) in [(10u64, ADD_A), (11, EDIT_A)] {
        b.commit(
            ChainChange::Applied {
                proposal_id: id,
                surface: Surface::Memory,
                payload: edit("wiki_patch", patch),
            },
            &["petra", "walter"],
        );
    }
    let full = chain_signer("walter", &b, b.blocks.clone());
    let full_tree = wiki_fold(&entries_of(&full.applied, Surface::Memory));
    assert_eq!(full_tree, "hallo\nworld\n");
    let state = checkpoint_state(&b.blocks, 2).expect("summary");
    assert_eq!(
        wiki_fold(&entries_of(&state.applied, Surface::Memory)),
        full_tree,
        "a cut keeps the fold byte-identical"
    );
}

#[test]
fn racing_feature_enables_both_survive_a_checkpoint_cut() {
    let pool = vec!["wss://relay.one".to_string()];
    let mut b = Builder::new_on_relays(&["petra", "walter"], 2, pool);
    for (h, value) in [(1, "memory quests"), (2, "memory vault")] {
        b.commit_org(h, "set_features", value, &["petra", "walter"]);
    }
    let state = checkpoint_state(&b.blocks, 2).expect("summary");
    let org = entries_of(&state.applied, Surface::Organization);
    let kept: Vec<&str> =
        org.iter().filter_map(|e| e.payload.text("value").map(String::as_str)).collect();
    assert_eq!(
        kept,
        vec!["memory quests", "memory vault"],
        "both racing enables survive the summary"
    );
    let walter = chain_signer("walter", &b, b.blocks.clone());
    assert_eq!(
        walter.effective_features(),
        vec!["memory".to_string(), "quests".to_string(), "vault".to_string()],
    );
}

/// Each member's picture and description, the latest of each.
fn profiles(entries: &[AppliedEntry]) -> Vec<(String, String, String)> {
    let mut out: Vec<(String, String, String)> = Vec::new();
    for e in entries {
        let Some(member) = e.payload.text("member") else { continue };
        if !out.iter().any(|p| p.0 == *member) {
            out.push((member.clone(), String::new(), String::new()));
        }
        let row = out.iter_mut().find(|p| p.0 == *member).expect("row");
        match e.payload.text("op").map(String::as_str) {
            Some("set_member_image") => row.1 = e.payload.value_text(),
            Some("set_member_desc") => row.2 = e.payload.value_text(),
            _ => {}
        }
    }
    out.sort();
    out
}

#[test]
fn a_checkpoint_cut_keeps_only_the_latest_avatar_per_member() {
    let pool = vec!["wss://relay.one".to_string()];
    let mut b = Builder::new_on_relays(&["petra", "walter"], 2, pool);
    let entries = [
        ("set_member_image", "petra", "old.png", "b2xk"),
        ("set_member_desc", "petra", "typo", ""),
        ("set_member_image", "walter", "walter.png", "d2FsdGVy"),
        ("set_member_image", "petra", "new.png", "bmV3"),
        ("set_member_desc", "petra", "keeps the bees", ""),
    ];
    for (h, (op, member, value, bytes)) in entries.iter().enumerate() {
        let proposal_id = u64::try_from(h + 1).expect("small height");
        let mut fields =
            vec![("op", text(op)), ("member", text(member)), ("value", text(value))];
        if !bytes.is_empty() {
            fields.push(("bytes_b64", text(bytes)));
        }
        b.commit(
            ChainChange::Applied {
                proposal_id,
                surface: Surface::Organization,
                payload: object(fields),
            },
            &["petra", "walter"],
        );
    }
    let state = checkpoint_state(&b.blocks, 5).expect("summary");
    let org = entries_of(&state.applied, Surface::Organization);
    let kept: Vec<&str> =
        org.iter().filter_map(|e| e.payload.text("value").map(String::as_str)).collect();
    assert_eq!(
        kept,
        vec!["walter.png", "new.png", "keeps the bees"],
        "the cut must keep exactly the latest entry per member and field"
    );

    let full = chain_signer("walter", &b, b.blocks.clone());
    let live = profiles(&entries_of(&full.applied, Surface::Organization));
    let after = profiles(&org);
    assert_eq!(after, live, "a cut must not change what the profiles fold to");
    assert_eq!(
        live,
        vec![
            ("petra".to_string(), "new.png".to_string(), "keeps the bees".to_string()),
            ("walter".to_string(), "walter.png".to_string(), String::new()),
        ]
    );
}
