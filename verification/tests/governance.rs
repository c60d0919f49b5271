#![allow(dead_code, unused_imports)]

use molt_engine::canonical::{
    approval_bytes, checkpoint_canonical_bytes, restore_consent_bytes, seat_proof_bytes,
    GENESIS_PREV,
};
use molt_engine::checkpoint::collect_run;
use molt_engine::fold::{checkpoint_state, checkpoint_state_hash, fold_one, fold_state};
use molt_engine::identity::{
    content_hash, identity_public, identity_sign, identity_verify, republic_id, SigningKey,
};
use molt_engine::membership::membership_payload;
use molt_engine::model::{
    Anchor, AppliedEntry, AppliedGroup, ChainBlock, ChainChange, CheckpointState, MemberIdentity,
    MembershipOp, RelayDeclaration, RosterAttestation, Surface,
};
use molt_engine::payload::{Field, Payload};
use molt_engine::signers::{block_hash, ChainHead};
use molt_engine::state::{
    Effect, Event, HeightHash, PendingRecovery, ProposalRecord, ProposalState,
    RecoverProgressReport, ReplicaState, State, WorkspaceEvent,
};
use molt_engine::table::Table;
use molt_engine::walk::{
    sealed_roster_from_blob, sealed_roster_from_genesis, verify_chain, verify_served,
    verify_suffix_chain,
};
use molt_engine::governance::{new_card, OPEN_CARDS_PER_PROPOSER_MAX};
use molt_engine::serving::decline_payload_hash;
use molt_engine::state::ParkedDecline;

/// Builds real threshold-signed chains: the founding is sealed by everybody,
/// later blocks by the named members.
#[derive(Clone)]
struct Builder {
    republic_id: String,
    keys: Vec<(String, SigningKey)>,
    blocks: Vec<ChainBlock>,
    head_hash: String,
}

impl Builder {
    fn new(members: &[&str], rule_m: u8) -> Builder {
        Builder::new_on_relays(members, rule_m, Vec::new())
    }

    fn new_on_relays(members: &[&str], rule_m: u8, relays: Vec<String>) -> Builder {
        let mut keys: Vec<(String, SigningKey)> = Vec::new();
        let mut identities: Vec<MemberIdentity> = Vec::new();
        for (i, m) in members.iter().enumerate() {
            let sk = SigningKey { secret: [u8::try_from(i + 1).unwrap_or(1); 32] };
            identities.push(MemberIdentity {
                member: (*m).to_string(),
                identity_pk: identity_public(&sk),
                nostr_pk: "cc".repeat(32),
            });
            keys.push(((*m).to_string(), sk));
        }
        let rule_n = u8::try_from(members.len()).expect("small roster");
        let republic_id = republic_id("Chess Club", rule_m, rule_n, &identities);
        let change = ChainChange::Genesis {
            name: "Chess Club".to_string(),
            republic_id: republic_id.clone(),
            rule_m,
            rule_n,
            identities,
            agenda: "play chess".to_string(),
            features: None,
            relays,
        };
        let mut b = Builder {
            republic_id,
            keys,
            blocks: Vec::new(),
            head_hash: GENESIS_PREV.to_string(),
        };
        let block = b.seal(0, change, members);
        b.push(block);
        b
    }

    /// Signs `change` at `height` with each named member.
    fn seal(&self, height: u64, change: ChainChange, signers: &[&str]) -> ChainBlock {
        let bytes = approval_bytes(&self.republic_id, height, &change);
        let sigs = signers
            .iter()
            .map(|name| RosterAttestation {
                member: (*name).to_string(),
                sig: identity_sign(self.key(name), &bytes),
            })
            .collect();
        ChainBlock { height, prev: self.head_hash.clone(), change, sigs }
    }

    fn push(&mut self, block: ChainBlock) {
        self.head_hash = block_hash(&self.republic_id, &block);
        self.blocks.push(block);
    }

    fn next_height(&self) -> u64 {
        u64::try_from(self.blocks.len()).expect("small chain")
    }

    fn commit(&mut self, change: ChainChange, signers: &[&str]) {
        let block = self.seal(self.next_height(), change, signers);
        self.push(block);
    }

    /// Commits a note signed by `signers` at the next height.
    fn commit_applied(&mut self, proposal_id: u64, signers: &[&str]) {
        self.commit(
            ChainChange::Applied {
                proposal_id,
                surface: Surface::Memory,
                payload: note(proposal_id),
            },
            signers,
        );
    }

    /// Commits an edit of the organization.
    fn commit_org(&mut self, proposal_id: u64, op: &str, value: &str, signers: &[&str]) {
        self.commit(
            ChainChange::Applied {
                proposal_id,
                surface: Surface::Organization,
                payload: edit(op, value),
            },
            signers,
        );
    }

    /// Commits a wiki patch that adds a document.
    fn commit_wiki(&mut self, proposal_id: u64, path: &str, body: &str, signers: &[&str]) {
        self.commit(
            ChainChange::Applied {
                proposal_id,
                surface: Surface::Memory,
                payload: edit("wiki_patch", &new_file_patch(path, body)),
            },
            signers,
        );
    }

    /// Commits a returned seat that names a new transport key.
    fn commit_restored(&mut self, member: &str, nostr_pk: &str, signers: &[&str]) {
        let change = restored(member, &self.pk(member), Some(nostr_pk), None);
        self.commit(change, signers);
    }

    fn key(&self, member: &str) -> &SigningKey {
        &self.keys.iter().find(|(m, _)| m == member).expect("known member").1
    }

    fn pk(&self, member: &str) -> String {
        identity_public(self.key(member))
    }
}

fn text(t: &str) -> Payload {
    Payload::Text(t.to_string())
}

fn object(fields: Vec<(&str, Payload)>) -> Payload {
    Payload::Object(
        fields
            .into_iter()
            .map(|(name, value)| Field { name: name.to_string(), value })
            .collect(),
    )
}

fn note(id: u64) -> Payload {
    object(vec![("op", text("add_note")), ("id", Payload::Count(id))])
}

fn edit(op: &str, value: &str) -> Payload {
    object(vec![("op", text(op)), ("value", text(value))])
}

fn new_file_patch(path: &str, body: &str) -> String {
    let lines: Vec<&str> = body.split('\n').collect();
    let mut patch = format!(
        "diff --git a/{path} b/{path}\nnew file mode 100644\n--- /dev/null\n+++ b/{path}\n@@ -0,0 +1,{} @@\n",
        lines.len()
    );
    for l in lines {
        patch.push('+');
        patch.push_str(l);
        patch.push('\n');
    }
    patch
}

fn restored(
    member: &str,
    identity_pk: &str,
    nostr_pk: Option<&str>,
    consent: Option<String>,
) -> ChainChange {
    ChainChange::Membership {
        op: MembershipOp::Restored,
        member: member.to_string(),
        identity_pk: identity_pk.to_string(),
        nostr_pk: nostr_pk.map(str::to_string),
        relays: Vec::new(),
        consent,
    }
}

/// A seat's state that roots in the founding of `b` and holds `chain`.
fn peer_of(member: &str, roster: &[&str], b: &Builder, chain: Vec<ChainBlock>) -> State {
    let mut peer = State::new();
    peer.now = 1_751_000_000;
    peer.replica = Some(ReplicaState {
        name: "Chess Club".to_string(),
        member: member.to_string(),
        roster: roster.iter().map(|m| m.to_string()).collect(),
        rule_m: 2,
        identities: Vec::new(),
        agenda: "play chess".to_string(),
        features: None,
        republic_id: b.republic_id.clone(),
        founded_ts: 0,
    });
    peer.adopt_chain(chain);
    peer.effects.clear();
    peer
}

fn chain_peer(member: &str, b: &Builder, chain: Vec<ChainBlock>) -> State {
    peer_of(member, &["petra", "walter"], b, chain)
}

fn chain_peer_3(member: &str, b: &Builder) -> State {
    peer_of(member, &["petra", "walter", "dora"], b, b.blocks.clone())
}

/// A peer that can also sign.
fn chain_signer(member: &str, b: &Builder, chain: Vec<ChainBlock>) -> State {
    let mut s = chain_peer(member, b, chain);
    s.identity_sk = Some(*b.key(member));
    s
}

/// A chain of exactly `len` blocks.
fn grown_chain(len: usize) -> Builder {
    let mut b = Builder::new(&["petra", "walter"], 2);
    for id in 0..len.saturating_sub(1) {
        b.commit_applied(u64::try_from(id + 100).expect("small id"), &["petra", "walter"]);
    }
    assert_eq!(b.blocks.len(), len);
    b
}

/// A returning member's consent, signed with its own key.
fn consent_for(b: &Builder, member: &str, nostr_pk: &str) -> String {
    identity_sign(
        b.key(member),
        &restore_consent_bytes(&b.republic_id, member, &b.pk(member), nostr_pk),
    )
}

fn height(s: &State) -> u64 {
    s.head.as_ref().expect("head").height
}

/// The signature that a state holds of a member for a proposal.
fn sig_of(s: &State, id: u64, member: &str) -> String {
    s.pending_sigs
        .get(id)
        .expect("pending set")
        .sigs
        .iter()
        .find(|a| a.member == member)
        .expect("signed")
        .sig
        .clone()
}

/// The entries of a surface in a summary.
fn entries_of(groups: &Vec<AppliedGroup>, surface: Surface) -> Vec<AppliedEntry> {
    groups
        .iter()
        .find(|g| g.surface == surface)
        .map(|g| g.entries.clone())
        .unwrap_or_default()
}

/// The approvals and other events that a state asked its host to send.
fn sent(s: &State) -> Vec<WorkspaceEvent> {
    s.effects
        .iter()
        .filter_map(|e| match e {
            Effect::Send { body } => Some(body.clone()),
            _ => None,
        })
        .collect()
}

/// `s` hears a membership proposal.
fn hear_membership(s: &mut State, id: u64, change: ChainChange, canonical_anchor: bool) {
    let ChainChange::Membership { op, member, identity_pk, nostr_pk, relays, consent } = change
    else {
        panic!("a membership change")
    };
    s.receive_membership_proposal(
        id,
        op,
        &member,
        &identity_pk,
        nostr_pk,
        relays,
        consent,
        canonical_anchor,
    );
}


fn applied_note(proposal_id: u64) -> ChainChange {
    ChainChange::Applied { proposal_id, surface: Surface::Memory, payload: note(proposal_id) }
}

fn named(proposal_id: u64, name: &str) -> ChainChange {
    ChainChange::Applied {
        proposal_id,
        surface: Surface::Organization,
        payload: edit("set_name", name),
    }
}

/// A member's approval of `change` at `height`.
fn approval(b: &Builder, member: &str, height: u64, change: &ChainChange) -> String {
    identity_sign(b.key(member), &approval_bytes(&b.republic_id, height, change))
}

/// Gives a card of `s` decliners.
fn declined(s: &mut State, id: u64, decliners: &[&str]) {
    let mut card = s.proposals.get(id).expect("card").clone();
    card.decliners = decliners.iter().map(|d| d.to_string()).collect();
    s.proposals.insert(id, card);
}

#[test]
fn a_block_that_missed_the_disk_is_not_broadcast() {
    let mut b = Builder::new(&["petra", "walter"], 2);
    let genesis = b.blocks.clone();
    b.commit_applied(1, &["petra", "walter"]);
    let block = b.blocks[1].clone();

    let mut peer = chain_peer("walter", &b, genesis.clone());
    peer.stored = true;
    let seq_before = peer.next_seq;
    peer.adopt_committed_block(block.clone(), 1);
    assert!(matches!(
        peer.effects.last(),
        Some(Effect::Sealed { id: 1, block: sealed }) if *sealed == block
    ));
    peer.sealed_block_written(false, block.clone(), 1);
    assert_eq!(peer.blocks.len(), 2, "the sealed block is appended locally");
    assert_eq!(
        peer.next_seq, seq_before,
        "no envelope may be minted for a block the disk never took"
    );
    assert!(
        !peer.effects.iter().any(|e| matches!(e, Effect::DecisionSummary { .. })),
        "no decision summary either"
    );

    let mut peer = chain_peer("petra", &b, genesis);
    peer.stored = true;
    let seq_before = peer.next_seq;
    peer.adopt_committed_block(block.clone(), 1);
    assert_eq!(peer.blocks.len(), 2);
    assert_eq!(peer.next_seq, seq_before, "nothing goes out before the write is known to hold");
    peer.sealed_block_written(true, block.clone(), 1);
    assert!(peer.next_seq > seq_before, "a durable seal broadcasts its Committed envelope");
    assert!(sent(&peer).iter().any(|e| matches!(e, WorkspaceEvent::Committed { .. })));
    assert!(peer.effects.iter().any(|e| matches!(e, Effect::DecisionSummary { id: 1, .. })));

    // without a storage there is nothing to wait for
    let mut peer = chain_peer("petra", &b, b.blocks[..1].to_vec());
    peer.adopt_committed_block(block, 1);
    assert!(sent(&peer).iter().any(|e| matches!(e, WorkspaceEvent::Committed { .. })));
    assert!(!peer.effects.iter().any(|e| matches!(e, Effect::Sealed { .. })));
}

#[test]
fn a_sealed_block_is_handed_over_with_the_whole_chain() {
    let mut b = Builder::new(&["petra", "walter"], 2);
    let genesis = b.blocks.clone();
    b.commit_applied(1, &["petra", "walter"]);
    let mut peer = chain_peer("walter", &b, genesis);
    peer.stored = true;
    peer.adopt_committed_block(b.blocks[1].clone(), 1);
    let written: Vec<&Effect> = peer
        .effects
        .iter()
        .filter(|e| matches!(e, Effect::PersistChain { .. } | Effect::Sealed { .. }))
        .collect();
    assert_eq!(written.len(), 2);
    assert!(matches!(
        written[0],
        Effect::PersistChain { blob: None, blocks } if *blocks == b.blocks
    ));
    assert!(matches!(written[1], Effect::Sealed { .. }));
}

#[test]
fn open_governance_reserves_the_own_withdraw() {
    let b = Builder::new(&["petra", "walter", "dora"], 2);
    let mut peer = chain_peer_3("walter", &b);
    let mut card = new_card(
        Surface::Organization,
        edit("set_name", "Short-lived"),
        ProposalState::Rejected,
        "walter".to_string(),
    );
    card.withdrawn = true;
    card.declined_at = peer.now;
    peer.proposals.insert(3, card);
    assert!(
        peer.open_governance_events().iter().any(|e| matches!(
            e,
            WorkspaceEvent::Withdrawn { id: 3, by } if by == "walter"
        )),
        "the own withdraw re-serves"
    );
}

fn own_declines(s: &State) -> Vec<u64> {
    s.open_governance_events()
        .iter()
        .filter_map(|e| match e {
            WorkspaceEvent::Declined { id, by, .. } if by == "walter" => Some(*id),
            _ => None,
        })
        .collect()
}

#[test]
fn open_governance_reserves_the_own_decline() {
    let b = Builder::new(&["petra", "walter", "dora"], 2);
    let mut peer = chain_peer_3("walter", &b);
    peer.retention_cutoff = peer.now - 1000;
    peer.receive_proposed(7, Surface::Organization, edit("set_name", "Open"), "petra");
    declined(&mut peer, 7, &["walter"]);
    peer.receive_proposed(8, Surface::Organization, edit("set_name", "Dead"), "petra");
    declined(&mut peer, 8, &["walter", "petra"]);
    let mut dead = peer.proposals.get(8).expect("card").clone();
    dead.state = ProposalState::Rejected;
    dead.declined_at = peer.now;
    peer.proposals.insert(8, dead.clone());
    peer.pending_declines.insert(
        11,
        vec![ParkedDecline { member: "walter".to_string(), ts: 1_751_000_000, hash: String::new() }],
    );
    let own = own_declines(&peer);
    assert!(own.contains(&7), "the open card's own decline re-serves");
    assert!(own.contains(&8), "the rejected card's own decline re-serves");
    assert!(own.contains(&11), "the parked own decline re-serves");
    assert!(
        !peer
            .open_governance_events()
            .iter()
            .any(|e| matches!(e, WorkspaceEvent::Declined { by, .. } if by == "petra")),
        "a foreign decline is never re-attested"
    );
    dead.declined_at = 1;
    peer.proposals.insert(8, dead);
    let aged = own_declines(&peer);
    assert!(!aged.contains(&8), "an aged-out rejected voice stops re-serving");
    assert!(aged.contains(&7), "the open card's voice stays");
}

#[test]
fn serving_open_governance_keeps_the_own_cards_decliners() {
    let b = Builder::new(&["petra", "walter", "dora"], 2);
    let mut peer = chain_peer_3("walter", &b);
    peer.receive_proposed(9, Surface::Organization, edit("set_name", "Kept"), "petra");
    declined(&mut peer, 9, &["dora"]);
    peer.serve_open_governance();
    assert_eq!(
        peer.proposals.get(9).expect("card").decliners,
        vec!["dora".to_string()],
        "serving must not wipe the collected voices"
    );
}

#[test]
fn a_decline_names_the_payload_it_judged() {
    let x = decline_payload_hash(&edit("set_name", "X"));
    assert_eq!(x, decline_payload_hash(&edit("set_name", "X")));
    assert_ne!(x, decline_payload_hash(&edit("set_name", "Y")));
}

#[test]
fn implausible_wire_ids_neither_abort_nor_poison_the_mint() {
    let b = Builder::new(&["petra", "walter"], 2);
    let mut walter = chain_signer("walter", &b, b.blocks.clone());
    let before = walter.next_id;
    walter.receive_checkpoint_proposal(u64::MAX, 0, "00");
    assert_eq!(walter.next_id, before, "no mint poison from the cut");
    assert!(!walter.receive_proposed(
        u64::MAX,
        Surface::Memory,
        object(vec![("op", text("add_note"))]),
        "petra"
    ));
    assert_eq!(walter.next_id, before, "no mint poison from a proposal");
    hear_membership(
        &mut walter,
        u64::MAX,
        restored("petra", &b.pk("petra"), None, None),
        true,
    );
    assert_eq!(walter.next_id, before, "no mint poison from membership");
}

#[test]
fn approvals_from_non_members_never_enter_the_pending_set() {
    let b = Builder::new(&["petra", "walter"], 2);
    let mut walter = chain_signer("walter", &b, b.blocks.clone());
    walter.receive_proposed(1, Surface::Memory, note(1), "petra");
    for i in 0..100u64 {
        walter.receive_approval(1, &format!("ghost{i}"), 1, "ff");
    }
    assert!(
        walter.pending_sigs.get(1).map_or(0, |p| p.sigs.len()) <= 2,
        "ghost names must not grow the set"
    );
}

#[test]
fn a_wire_proposal_flood_is_bounded_per_proposer() {
    let b = Builder::new(&["petra", "walter"], 2);
    let mut walter = chain_signer("walter", &b, b.blocks.clone());
    for i in 0..200u64 {
        walter.receive_proposed(
            100 + i,
            Surface::Memory,
            object(vec![("op", text("add_note")), ("i", Payload::Count(i))]),
            "petra",
        );
    }
    let open_petra = walter
        .proposals
        .rows()
        .iter()
        .filter(|r| r.value.state == ProposalState::Proposed && r.value.by == "petra")
        .count();
    assert_eq!(open_petra, OPEN_CARDS_PER_PROPOSER_MAX, "the cap holds");
    assert!(
        walter.receive_proposed(
            900,
            Surface::Memory,
            object(vec![("op", text("add_note"))]),
            "walter"
        ),
        "another member's honest card still lands"
    );
}

#[test]
fn an_unverifiable_approval_is_not_displayed_as_consent() {
    let b = Builder::new(&["petra", "walter"], 2);
    let mut walter = chain_signer("walter", &b, b.blocks.clone());
    walter.receive_proposed(1, Surface::Memory, note(1), "petra");
    walter.receive_approval(1, "petra", 1, "deadbeef");
    assert_eq!(walter.chain_approval_count(1), 0, "junk shows no progress");
    walter.receive_approval(1, "petra", 1, &approval(&b, "petra", 1, &applied_note(1)));
    assert_eq!(walter.chain_approval_count(1), 1, "the genuine one displays");
    walter.chain_sign_and_gossip_approval(1);
    assert_eq!(height(&walter), 1, "verification costs no liveness - the block seals");
}

fn signed_here(s: &State, id: u64, member: &str) -> bool {
    s.pending_sigs.get(id).is_some_and(|p| p.sigs.iter().any(|a| a.member == member))
}

#[test]
fn a_forged_own_approval_is_not_re_signed_at_the_rebase() {
    let mut b = Builder::new(&["petra", "walter", "dora"], 2);
    let mut walter = chain_signer("walter", &b, b.blocks.clone());
    walter.receive_proposed(1, Surface::Memory, note(1), "petra");
    walter.receive_approval(1, "walter", 1, "deadbeef");
    walter.receive_proposed(2, Surface::Memory, note(2), "petra");
    b.commit_applied(2, &["petra", "dora"]);
    walter.receive_block(b.blocks[1].clone());
    assert_eq!(height(&walter), 1);
    assert!(!signed_here(&walter, 1, "walter"), "the re-base must not sign what nobody decided");
    assert_eq!(walter.chain_approval_count(1), 0, "no forged progress");
}

#[test]
fn an_own_approval_is_signed_again_at_the_rebase() {
    let mut b = Builder::new(&["petra", "walter", "dora", "eve", "finn"], 3);
    let mut walter = peer_of("walter", &["petra", "walter", "dora", "eve", "finn"], &b, b.blocks.clone());
    walter.identity_sk = Some(*b.key("walter"));
    walter.receive_proposed(1, Surface::Memory, note(1), "petra");
    walter.chain_sign_and_gossip_approval(1);
    assert!(walter.own_approvals.contains(&1));
    b.commit_applied(2, &["petra", "dora", "eve"]);
    walter.receive_block(b.blocks[1].clone());
    assert_eq!(height(&walter), 1);
    let pending = walter.pending_sigs.get(1).expect("signed anew");
    assert_eq!(pending.height, 2, "for the height it can be sealed at now");
    assert_eq!(
        sig_of(&walter, 1, "walter"),
        approval(&b, "walter", 2, &applied_note(1))
    );
}

#[test]
fn a_declined_own_approval_is_not_re_signed_at_the_rebase() {
    let mut b = Builder::new(&["petra", "walter", "dora", "eve", "finn"], 3);
    let mut walter = chain_signer("walter", &b, b.blocks.clone());
    walter.receive_proposed(1, Surface::Memory, note(1), "petra");
    walter.chain_sign_and_gossip_approval(1);
    assert!(walter.own_approvals.contains(&1));
    // the decline takes the decision back, and the signature with it
    walter.own_approvals.retain(|id| *id != 1);
    walter.pending_sigs.remove(1);
    assert!(!walter.own_approvals.contains(&1), "the register forgets");
    walter.receive_proposed(2, Surface::Memory, note(2), "petra");
    b.commit_applied(2, &["petra", "dora", "eve"]);
    walter.receive_block(b.blocks[1].clone());
    assert!(!signed_here(&walter, 1, "walter"), "a retracted approval must not come back");
    assert_eq!(walter.chain_approval_count(1), 0);
}

#[test]
fn junk_does_not_evict_a_verified_signature() {
    let b = Builder::new(&["petra", "walter", "dora"], 2);
    let mut walter = chain_signer("walter", &b, b.blocks.clone());
    walter.receive_proposed(1, Surface::Memory, note(1), "petra");
    let genuine = approval(&b, "petra", 1, &applied_note(1));
    walter.receive_approval(1, "petra", 1, &genuine);
    assert_eq!(walter.chain_approval_count(1), 1);
    walter.receive_approval(1, "petra", 1, "deadbeef");
    assert_eq!(walter.chain_approval_count(1), 1, "the genuine one stands");
    assert_eq!(sig_of(&walter, 1, "petra"), genuine);
}

#[test]
fn an_approval_that_outran_its_card_counts_once_the_card_lands() {
    let b = Builder::new(&["petra", "walter", "dora"], 2);
    let mut walter = chain_signer("walter", &b, b.blocks.clone());
    walter.receive_approval(1, "petra", 1, &approval(&b, "petra", 1, &named(1, "Early")));
    assert_eq!(
        walter.chain_approval_count(1),
        0,
        "not verifiable yet - the card has not landed"
    );
    walter.receive_proposed(1, Surface::Organization, edit("set_name", "Early"), "petra");
    assert_eq!(
        walter.chain_approval_count(1),
        1,
        "the card landed - the collected signature displays"
    );
}

#[test]
fn a_current_decliners_stale_signature_does_not_seal() {
    let b = Builder::new(&["petra", "walter", "dora"], 2);
    let mut walter = chain_signer("walter", &b, b.blocks.clone());
    walter.receive_proposed(1, Surface::Organization, edit("set_name", "Contested"), "petra");
    declined(&mut walter, 1, &["dora"]);
    walter.receive_approval(1, "dora", 1, &approval(&b, "dora", 1, &named(1, "Contested")));
    walter.chain_sign_and_gossip_approval(1);
    assert_eq!(height(&walter), 0, "no block seals while a counted signer's decline stands");
    assert_eq!(
        walter.proposals.get(1).map(|p| p.state),
        Some(ProposalState::Proposed),
        "the card stays open"
    );
}

#[test]
fn an_over_subscribed_voter_still_reads_approved_on_the_applied_card() {
    let mut b = Builder::new(&["petra", "walter", "dora"], 2);
    let mut peer = chain_signer("walter", &b, b.blocks.clone());
    peer.receive_proposed(1, Surface::Memory, note(1), "petra");
    peer.chain_sign_and_gossip_approval(1);
    b.commit_applied(1, &["petra", "dora"]);
    peer.receive_block(b.blocks[1].clone());
    let p = peer.proposals.get(1).expect("card");
    assert_eq!(p.state, ProposalState::Applied);
    assert_eq!(
        peer.applied_sigs.get(1).expect("signers").len(),
        2,
        "the chain-proven count stays the block's"
    );
    assert!(
        p.voted.contains(&"walter".to_string()),
        "walter cast a vote and must see it"
    );
    peer.receive_approval(1, "dora", 1, "ff");
    assert!(!peer.pending_sigs.contains_key(1), "a terminal card collects no pending signatures");
}

#[test]
fn an_applied_card_reports_the_block_signers() {
    let mut b = Builder::new(&["petra", "walter", "dora"], 2);
    let mut peer = chain_peer_3("walter", &b);
    peer.receive_proposed(1, Surface::Memory, note(1), "petra");
    b.commit_applied(1, &["petra", "dora"]);
    peer.receive_block(b.blocks[1].clone());
    assert_eq!(peer.proposals.get(1).expect("card").state, ProposalState::Applied);
    let signers: Vec<&str> =
        peer.applied_sigs.get(1).expect("signers").iter().map(|a| a.member.as_str()).collect();
    assert_eq!(signers, vec!["petra", "dora"], "walter did not sign");
}

#[test]
fn an_id_consumed_below_the_cut_cannot_replay_on_a_pruned_holder() {
    let mut b = Builder::new(&["petra", "walter"], 2);
    b.commit_applied(1, &["petra", "walter"]);
    b.commit_applied(2, &["petra", "walter"]);
    let pre_cut = b.blocks.clone();
    let blob = checkpoint_state(&b.blocks, 2).expect("state@2");
    let anchor = b.seal(
        3,
        ChainChange::Checkpoint { upto: 2, state_hash: checkpoint_state_hash(&blob) },
        &["petra", "walter"],
    );
    b.push(anchor.clone());

    let mut peer = chain_peer("walter", &b, pre_cut);
    peer.receive_block(anchor);
    assert!(peer.checkpoint_blob.is_some(), "the cut sealed and anchored");
    assert_eq!(peer.blocks.len(), 1, "history below the cut is dropped");
    assert_eq!(height(&peer), 3);

    b.commit_applied(1, &["petra", "walter"]);
    let replay = b.blocks.last().expect("the replay block").clone();
    assert_eq!(replay.height, 4, "the replay sits on top of the anchor");
    peer.receive_block(replay);
    assert_eq!(height(&peer), 3, "an id consumed below the cut cannot re-apply after the prune");
    assert_eq!(peer.blocks.len(), 1, "the refused block is not retained");

    b.blocks.pop();
    b.head_hash = block_hash(&b.republic_id, &peer.blocks[0]);
    b.commit_applied(9, &["petra", "walter"]);
    peer.receive_block(b.blocks.last().expect("fresh block").clone());
    assert_eq!(height(&peer), 4, "a fresh id extends the pruned holder");
}

#[test]
fn a_refused_block_does_not_poison_the_walk() {
    let mut b = Builder::new(&["petra", "walter"], 2);
    let mut peer = chain_peer("walter", &b, b.blocks.clone());
    peer.receive_block(b.seal(1, applied_note(7), &["petra"]));
    assert_eq!(height(&peer), 0, "a below-threshold block is refused");
    b.commit_applied(7, &["petra", "walter"]);
    peer.receive_block(b.blocks[1].clone());
    assert_eq!(height(&peer), 1, "a refused block must not burn its proposal id");
}

#[test]
fn incremental_extension_equals_full_verification_at_every_prefix() {
    let b = grown_chain(12);
    let mut peer = chain_peer("walter", &b, b.blocks[..1].to_vec());
    for (i, block) in b.blocks[1..].iter().enumerate() {
        peer.receive_block(block.clone());
        let full = verify_chain(&b.blocks[..=i + 1]).expect("the prefix verifies in full");
        let cached = peer.head.as_ref().expect("head");
        assert_eq!(cached.height, full.height);
        assert_eq!(cached.hash, full.hash, "prefix {} diverged", i + 1);
        assert_eq!(cached.identities, full.identities);
        assert!(
            peer.walk
                .as_ref()
                .expect("the walk is kept")
                .describes(&peer.blocks, peer.checkpoint_blob.as_ref()),
            "the cached walk must describe the chain it was built on"
        );
    }
}

fn minutes() -> Payload {
    object(vec![("op", text("add_note")), ("title", text("minutes"))])
}

#[test]
fn regossiped_proposals_and_approvals_are_idempotent() {
    let b = Builder::new(&["petra", "walter", "dora"], 2);
    let mut walter = chain_signer("walter", &b, b.blocks.clone());

    walter.receive_proposed(1, Surface::Memory, minutes(), "peer");
    walter.receive_proposed(1, Surface::Memory, minutes(), "peer");
    let pending = walter
        .proposals
        .rows()
        .iter()
        .filter(|r| r.value.state == ProposalState::Proposed)
        .count();
    assert_eq!(pending, 1, "one entry, not two");

    let change =
        ChainChange::Applied { proposal_id: 1, surface: Surface::Memory, payload: minutes() };
    let petra_sig = approval(&b, "petra", 1, &change);
    walter.receive_approval(1, "petra", 1, &petra_sig);
    walter.receive_approval(1, "petra", 1, &petra_sig);
    let sigs = &walter.pending_sigs.get(1).expect("pending set").sigs;
    assert_eq!(sigs.len(), 1, "one signature per member: {sigs:?}");

    walter.chain_sign_and_gossip_approval(1);
    assert_eq!(height(&walter), 1);
    assert_eq!(
        walter.proposals.get(1).map(|p| p.state),
        Some(ProposalState::Applied),
        "the proposal committed"
    );

    walter.receive_proposed(1, Surface::Memory, minutes(), "peer");
    walter.receive_approval(1, "petra", 1, &petra_sig);
    assert_eq!(
        walter.proposals.get(1).map(|p| p.state),
        Some(ProposalState::Applied),
        "a committed proposal stays committed"
    );
    assert_eq!(height(&walter), 1, "no second block for the same proposal");
}

#[test]
fn a_catchup_answer_reserves_open_governance() {
    let b = Builder::new(&["petra", "walter"], 2);
    let mut petra = chain_signer("petra", &b, b.blocks.clone());
    petra.receive_proposed(1, Surface::Memory, minutes(), "petra");
    petra.chain_sign_and_gossip_approval(1);

    let (mut saw_proposed, mut relayed_sig) = (false, None);
    for body in &petra.open_governance_events() {
        match body {
            WorkspaceEvent::Proposed { id, surface, payload: p } => {
                assert_eq!((*id, *surface), (1, Surface::Memory));
                assert_eq!(p, &minutes(), "the payload rides unchanged");
                saw_proposed = true;
            }
            WorkspaceEvent::Approved { id, by, height, sig } => {
                assert_eq!((*id, by.as_str(), *height), (1, "petra", 1));
                relayed_sig = Some(sig.clone());
            }
            other => panic!("unexpected re-gossip event: {other:?}"),
        }
    }
    assert!(saw_proposed, "the open proposal is re-served");
    let relayed_sig = relayed_sig.expect("petra's collected signature is re-served");

    let mut walter = chain_signer("walter", &b, b.blocks.clone());
    walter.receive_proposed(1, Surface::Memory, minutes(), "peer");
    walter.receive_approval(1, "petra", 1, &relayed_sig);
    assert_eq!(
        walter.pending_sigs.get(1).map(|s| s.sigs.len()),
        Some(1),
        "the reopened member sees the collected approval count"
    );
    walter.chain_sign_and_gossip_approval(1);
    assert_eq!(height(&walter), 1, "the recovered proposal is fully approvable - the block seals");
}

#[test]
fn a_sealed_vote_appends_its_summary_to_the_discussion() {
    let pool = vec!["wss://relay.one".to_string()];
    let b = Builder::new_on_relays(&["petra", "walter"], 2, pool);
    let mut walter = chain_signer("walter", &b, b.blocks.clone());
    let mut petra = chain_signer("petra", &b, b.blocks.clone());
    let payload = edit("set_relays", "wss://relay.one wss://relay.three.example");
    let id = walter.next_id;
    walter.receive_proposed(id, Surface::Organization, payload.clone(), "walter");
    walter.chain_sign_and_gossip_approval(id);
    petra.receive_proposed(id, Surface::Organization, payload.clone(), "peer");
    let walter_sig = sig_of(&walter, id, "walter");
    petra.receive_approval(id, "walter", 1, &walter_sig);
    petra.chain_sign_and_gossip_approval(id);
    assert_eq!(height(&petra), 1, "sealed at m");
    let block = petra.blocks.last().expect("block").clone();
    assert!(
        petra.effects.iter().any(|e| matches!(
            e,
            Effect::DecisionSummary { id: i, payload: p } if *i == id && *p == payload
        )),
        "the sealed vote posts its summary into the discussion"
    );
    walter.receive_block(block);
    assert_eq!(height(&walter), 1);
    assert!(
        !walter.effects.iter().any(|e| matches!(e, Effect::DecisionSummary { .. })),
        "only the sealer appends"
    );
}
