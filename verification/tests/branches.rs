//! Two branches of one chain: the smaller hash at the fork wins.
#![allow(dead_code, unused_imports)]

use molt_engine::canonical::{
    approval_bytes, checkpoint_canonical_bytes, restore_consent_bytes, seat_proof_bytes,
    GENESIS_PREV,
};
use molt_engine::checkpoint::collect_run;
use molt_engine::fold::{checkpoint_state, checkpoint_state_hash, fold_one, fold_state};
use molt_engine::identity::{
    content_hash, identity_public, identity_sign, identity_verify, republic_id, SigningKey,
};
use molt_engine::membership::membership_payload;
use molt_engine::model::{
    Anchor, AppliedEntry, AppliedGroup, ChainBlock, ChainChange, CheckpointState, MemberIdentity,
    MembershipOp, RelayDeclaration, RosterAttestation, Surface,
};
use molt_engine::payload::{Field, Payload};
use molt_engine::signers::{block_hash, ChainHead};
use molt_engine::state::{
    Effect, Event, HeightHash, PendingRecovery, ProposalRecord, ProposalState,
    RecoverProgressReport, ReplicaState, State, WorkspaceEvent,
};
use molt_engine::table::Table;
use molt_engine::walk::{
    sealed_roster_from_blob, sealed_roster_from_genesis, verify_chain, verify_served,
    verify_suffix_chain,
};


/// Builds real threshold-signed chains: the founding is sealed by everybody,
/// later blocks by the named members.
#[derive(Clone)]
struct Builder {
    republic_id: String,
    keys: Vec<(String, SigningKey)>,
    blocks: Vec<ChainBlock>,
    head_hash: String,
}

impl Builder {
    fn new(members: &[&str], rule_m: u8) -> Builder {
        Builder::new_on_relays(members, rule_m, Vec::new())
    }

    fn new_on_relays(members: &[&str], rule_m: u8, relays: Vec<String>) -> Builder {
        let mut keys: Vec<(String, SigningKey)> = Vec::new();
        let mut identities: Vec<MemberIdentity> = Vec::new();
        for (i, m) in members.iter().enumerate() {
            let sk = SigningKey { secret: [u8::try_from(i + 1).unwrap_or(1); 32] };
            identities.push(MemberIdentity {
                member: (*m).to_string(),
                identity_pk: identity_public(&sk),
                nostr_pk: "cc".repeat(32),
            });
            keys.push(((*m).to_string(), sk));
        }
        let rule_n = u8::try_from(members.len()).expect("small roster");
        let republic_id = republic_id("Chess Club", rule_m, rule_n, &identities);
        let change = ChainChange::Genesis {
            name: "Chess Club".to_string(),
            republic_id: republic_id.clone(),
            rule_m,
            rule_n,
            identities,
            agenda: "play chess".to_string(),
            features: None,
            relays,
        };
        let mut b = Builder {
            republic_id,
            keys,
            blocks: Vec::new(),
            head_hash: GENESIS_PREV.to_string(),
        };
        let block = b.seal(0, change, members);
        b.push(block);
        b
    }

    /// Signs `change` at `height` with each named member.
    fn seal(&self, height: u64, change: ChainChange, signers: &[&str]) -> ChainBlock {
        let bytes = approval_bytes(&self.republic_id, height, &change);
        let sigs = signers
            .iter()
            .map(|name| RosterAttestation {
                member: (*name).to_string(),
                sig: identity_sign(self.key(name), &bytes),
            })
            .collect();
        ChainBlock { height, prev: self.head_hash.clone(), change, sigs }
    }

    fn push(&mut self, block: ChainBlock) {
        self.head_hash = block_hash(&self.republic_id, &block);
        self.blocks.push(block);
    }

    fn next_height(&self) -> u64 {
        u64::try_from(self.blocks.len()).expect("small chain")
    }

    fn commit(&mut self, change: ChainChange, signers: &[&str]) {
        let block = self.seal(self.next_height(), change, signers);
        self.push(block);
    }

    /// Commits a note signed by `signers` at the next height.
    fn commit_applied(&mut self, proposal_id: u64, signers: &[&str]) {
        self.commit(
            ChainChange::Applied {
                proposal_id,
                surface: Surface::Memory,
                payload: note(proposal_id),
            },
            signers,
        );
    }

    /// Commits an edit of the organization.
    fn commit_org(&mut self, proposal_id: u64, op: &str, value: &str, signers: &[&str]) {
        self.commit(
            ChainChange::Applied {
                proposal_id,
                surface: Surface::Organization,
                payload: edit(op, value),
            },
            signers,
        );
    }

    /// Commits a wiki patch that adds a document.
    fn commit_wiki(&mut self, proposal_id: u64, path: &str, body: &str, signers: &[&str]) {
        self.commit(
            ChainChange::Applied {
                proposal_id,
                surface: Surface::Memory,
                payload: edit("wiki_patch", &new_file_patch(path, body)),
            },
            signers,
        );
    }

    /// Commits a returned seat that names a new transport key.
    fn commit_restored(&mut self, member: &str, nostr_pk: &str, signers: &[&str]) {
        let change = restored(member, &self.pk(member), Some(nostr_pk), None);
        self.commit(change, signers);
    }

    fn key(&self, member: &str) -> &SigningKey {
        &self.keys.iter().find(|(m, _)| m == member).expect("known member").1
    }

    fn pk(&self, member: &str) -> String {
        identity_public(self.key(member))
    }
}

fn text(t: &str) -> Payload {
    Payload::Text(t.to_string())
}

fn object(fields: Vec<(&str, Payload)>) -> Payload {
    Payload::Object(
        fields
            .into_iter()
            .map(|(name, value)| Field { name: name.to_string(), value })
            .collect(),
    )
}

fn note(id: u64) -> Payload {
    object(vec![("op", text("add_note")), ("id", Payload::Count(id))])
}

fn edit(op: &str, value: &str) -> Payload {
    object(vec![("op", text(op)), ("value", text(value))])
}

fn new_file_patch(path: &str, body: &str) -> String {
    let lines: Vec<&str> = body.split('\n').collect();
    let mut patch = format!(
        "diff --git a/{path} b/{path}\nnew file mode 100644\n--- /dev/null\n+++ b/{path}\n@@ -0,0 +1,{} @@\n",
        lines.len()
    );
    for l in lines {
        patch.push('+');
        patch.push_str(l);
        patch.push('\n');
    }
    patch
}

fn restored(
    member: &str,
    identity_pk: &str,
    nostr_pk: Option<&str>,
    consent: Option<String>,
) -> ChainChange {
    ChainChange::Membership {
        op: MembershipOp::Restored,
        member: member.to_string(),
        identity_pk: identity_pk.to_string(),
        nostr_pk: nostr_pk.map(str::to_string),
        relays: Vec::new(),
        consent,
    }
}

/// A seat's state that roots in the founding of `b` and holds `chain`.
fn peer_of(member: &str, roster: &[&str], b: &Builder, chain: Vec<ChainBlock>) -> State {
    let mut peer = State::new();
    peer.now = 1_751_000_000;
    peer.replica = Some(ReplicaState {
        name: "Chess Club".to_string(),
        member: member.to_string(),
        roster: roster.iter().map(|m| m.to_string()).collect(),
        rule_m: 2,
        identities: Vec::new(),
        agenda: "play chess".to_string(),
        features: None,
        republic_id: b.republic_id.clone(),
        founded_ts: 0,
    });
    peer.adopt_chain(chain);
    peer.effects.clear();
    peer
}

fn chain_peer(member: &str, b: &Builder, chain: Vec<ChainBlock>) -> State {
    peer_of(member, &["petra", "walter"], b, chain)
}

fn chain_peer_3(member: &str, b: &Builder) -> State {
    peer_of(member, &["petra", "walter", "dora"], b, b.blocks.clone())
}

/// A peer that can also sign.
fn chain_signer(member: &str, b: &Builder, chain: Vec<ChainBlock>) -> State {
    let mut s = chain_peer(member, b, chain);
    s.identity_sk = Some(*b.key(member));
    s
}

/// A chain of exactly `len` blocks.
fn grown_chain(len: usize) -> Builder {
    let mut b = Builder::new(&["petra", "walter"], 2);
    for id in 0..len.saturating_sub(1) {
        b.commit_applied(u64::try_from(id + 100).expect("small id"), &["petra", "walter"]);
    }
    assert_eq!(b.blocks.len(), len);
    b
}

/// A returning member's consent, signed with its own key.
fn consent_for(b: &Builder, member: &str, nostr_pk: &str) -> String {
    identity_sign(
        b.key(member),
        &restore_consent_bytes(&b.republic_id, member, &b.pk(member), nostr_pk),
    )
}

fn height(s: &State) -> u64 {
    s.head.as_ref().expect("head").height
}

/// The signature that a state holds of a member for a proposal.
fn sig_of(s: &State, id: u64, member: &str) -> String {
    s.pending_sigs
        .get(id)
        .expect("pending set")
        .sigs
        .iter()
        .find(|a| a.member == member)
        .expect("signed")
        .sig
        .clone()
}

/// The entries of a surface in a summary.
fn entries_of(groups: &Vec<AppliedGroup>, surface: Surface) -> Vec<AppliedEntry> {
    groups
        .iter()
        .find(|g| g.surface == surface)
        .map(|g| g.entries.clone())
        .unwrap_or_default()
}

/// The approvals and other events that a state asked its host to send.
fn sent(s: &State) -> Vec<WorkspaceEvent> {
    s.effects
        .iter()
        .filter_map(|e| match e {
            Effect::Send { body } => Some(body.clone()),
            _ => None,
        })
        .collect()
}

/// `s` hears a membership proposal.
fn hear_membership(s: &mut State, id: u64, change: ChainChange, canonical_anchor: bool) {
    let ChainChange::Membership { op, member, identity_pk, nostr_pk, relays, consent } = change
    else {
        panic!("a membership change")
    };
    s.receive_membership_proposal(
        id,
        op,
        &member,
        &identity_pk,
        nostr_pk,
        relays,
        consent,
        canonical_anchor,
    );
}


/// A fork after a common beginning: the branch whose first own block has the
/// smaller hash, and the other one, with the ids that each decides.
struct Fork {
    winner: Builder,
    winner_ids: [u64; 2],
    loser: Builder,
    loser_ids: [u64; 2],
}

fn forked() -> Fork {
    let common = grown_chain(3);
    let branch = |ids: [u64; 2]| {
        let mut b = common.clone();
        for id in ids {
            b.commit_applied(id, &["petra", "walter"]);
        }
        b
    };
    let (a, b) = (branch([10, 11]), branch([20, 21]));
    let rid = &common.republic_id;
    if block_hash(rid, &a.blocks[3]) < block_hash(rid, &b.blocks[3]) {
        Fork { winner: a, winner_ids: [10, 11], loser: b, loser_ids: [20, 21] }
    } else {
        Fork { winner: b, winner_ids: [20, 21], loser: a, loser_ids: [10, 11] }
    }
}

#[test]
fn the_branch_with_the_smaller_hash_is_adopted() {
    let f = forked();
    let mut s = chain_peer("walter", &f.loser, f.loser.blocks.clone());
    // one card was voted on here, the other was only made from its block
    let mut voted = s.proposals.get(f.loser_ids[0]).expect("card").clone();
    voted.by = "petra".to_string();
    s.proposals.insert(f.loser_ids[0], voted);

    s.receive_block_from("petra", f.winner.blocks[3].clone());
    assert_eq!(s.blocks[..], f.winner.blocks[..4], "moved onto the other branch");
    assert_eq!(verify_chain(&s.blocks).ok(), s.head);
    assert_eq!(
        s.proposals.get(f.loser_ids[0]).map(|p| p.state),
        Some(ProposalState::Proposed),
        "what the own branch decided is a vote again"
    );
    assert!(
        !s.proposals.contains_key(f.loser_ids[1]),
        "a card that was only made from its block goes with it"
    );
    assert_eq!(
        s.proposals.get(f.winner_ids[0]).map(|p| p.state),
        Some(ProposalState::Applied)
    );
    assert!(s.fork_candidates.is_empty() && s.diverged.is_empty());
    // what the peer holds above is asked for
    assert!(sent(&s).iter().any(|e| matches!(
        e,
        WorkspaceEvent::ChainRequest { from_height: 4, .. }
    )));
    s.receive_block_from("petra", f.winner.blocks[4].clone());
    assert_eq!(s.blocks, f.winner.blocks);
}

#[test]
fn the_branch_with_the_larger_hash_is_not() {
    let f = forked();
    let mut s = chain_peer("walter", &f.winner, f.winner.blocks.clone());
    s.receive_block_from("petra", f.loser.blocks[3].clone());
    assert_eq!(s.blocks, f.winner.blocks, "the peer re-bases, not this one");
    assert!(s.fork_candidates.is_empty(), "the branch is given up");
    assert_eq!(s.diverged.len(), 1, "and the peer is known to be on it");
    assert_eq!(s.notice, "chain-diverged:petra:3");
    // a block of the own branch clears that
    s.receive_block_from("petra", f.winner.blocks[4].clone());
    assert!(s.diverged.is_empty());
}

#[test]
fn a_branch_that_does_not_verify_is_dropped() {
    let f = forked();
    let mut s = chain_peer("walter", &f.loser, f.loser.blocks.clone());
    // the votes are taken off: the hash does not cover them
    let mut thin = f.winner.blocks[3].clone();
    thin.sigs.truncate(1);
    let hash_holds = block_hash(&f.winner.republic_id, &thin)
        < block_hash(&f.winner.republic_id, &f.loser.blocks[3]);
    s.receive_block_from("petra", thin);
    assert_eq!(s.blocks, f.loser.blocks);
    assert_eq!(verify_chain(&s.blocks).ok(), s.head);
    if hash_holds {
        assert!(s.fork_candidates.is_empty());
    }
}

#[test]
fn a_branch_is_asked_for_down_to_where_it_forks() {
    let f = forked();
    let mut s = chain_peer("walter", &f.loser, f.loser.blocks.clone());
    // its second block does not link into the own chain
    s.receive_block_from("petra", f.winner.blocks[4].clone());
    assert_eq!(s.blocks, f.loser.blocks);
    assert_eq!(s.fork_candidates.len(), 1);
    assert!(sent(&s).iter().any(|e| matches!(
        e,
        WorkspaceEvent::ChainRequest { from_height: 3, .. }
    )));
    // the first one closes the gap, and both are adopted
    s.receive_block_from("petra", f.winner.blocks[3].clone());
    assert_eq!(s.blocks, f.winner.blocks);
    assert_eq!(verify_chain(&s.blocks).ok(), s.head);
}

#[test]
fn an_own_approval_is_signed_for_the_new_branch() {
    let f = forked();
    let mut s = chain_signer("walter", &f.loser, f.loser.blocks.clone());
    s.receive_proposed(77, Surface::Memory, note(77), "petra");
    s.chain_sign_and_gossip_approval(77);
    assert_eq!(s.pending_sigs.get(77).map(|p| p.height), Some(5));
    s.receive_block_from("petra", f.winner.blocks[3].clone());
    assert_eq!(height(&s), 3);
    assert_eq!(s.pending_sigs.get(77).map(|p| p.height), Some(4), "at the new next height");
    let change =
        ChainChange::Applied { proposal_id: 77, surface: Surface::Memory, payload: note(77) };
    assert_eq!(
        sig_of(&s, 77, "walter"),
        identity_sign(f.loser.key("walter"), &approval_bytes(&f.loser.republic_id, 4, &change))
    );
}

#[test]
fn a_request_names_the_own_chain_ever_further_apart() {
    let b = grown_chain(12);
    let s = chain_peer("walter", &b, b.blocks.clone());
    let known = s.known_heads();
    assert_eq!(
        known.iter().map(|k| k.height).collect::<Vec<_>>(),
        vec![11, 10, 9, 7, 3],
        "11, then 1, 2, 4 and 8 below"
    );
    assert_eq!(known[0].hash, block_hash(&b.republic_id, &b.blocks[11]));
    // a server that holds some of it serves from above the highest of those
    let server = chain_peer("petra", &b, b.blocks[..8].to_vec());
    assert_eq!(server.serve_from_for(12, &known), 8);
    let stranger = vec![HeightHash { height: 5, hash: "00".to_string() }];
    assert_eq!(server.serve_from_for(12, &stranger), 12);
}
