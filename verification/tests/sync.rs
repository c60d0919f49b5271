#![allow(dead_code, unused_imports)]

use molt_engine::canonical::{
    approval_bytes, checkpoint_canonical_bytes, restore_consent_bytes, seat_proof_bytes,
    GENESIS_PREV,
};
use molt_engine::checkpoint::collect_run;
use molt_engine::fold::{checkpoint_state, checkpoint_state_hash, fold_one, fold_state};
use molt_engine::identity::{
    content_hash, identity_public, identity_sign, identity_verify, republic_id, SigningKey,
};
use molt_engine::membership::membership_payload;
use molt_engine::model::{
    Anchor, AppliedEntry, AppliedGroup, ChainBlock, ChainChange, CheckpointState, MemberIdentity,
    MembershipOp, RelayDeclaration, RosterAttestation, Surface,
};
use molt_engine::payload::{Field, Payload};
use molt_engine::signers::{block_hash, ChainHead};
use molt_engine::state::{
    Effect, Event, HeightHash, PendingRecovery, ProposalRecord, ProposalState,
    RecoverProgressReport, ReplicaState, State, WorkspaceEvent,
};
use molt_engine::table::Table;
use molt_engine::walk::{
    sealed_roster_from_blob, sealed_roster_from_genesis, verify_chain, verify_served,
    verify_suffix_chain,
};
use molt_engine::canonical::block_link_bytes;
use molt_engine::sync::served_blob_fits;

/// Builds real threshold-signed chains: the founding is sealed by everybody,
/// later blocks by the named members.
#[derive(Clone)]
struct Builder {
    republic_id: String,
    keys: Vec<(String, SigningKey)>,
    blocks: Vec<ChainBlock>,
    head_hash: String,
}

impl Builder {
    fn new(members: &[&str], rule_m: u8) -> Builder {
        Builder::new_on_relays(members, rule_m, Vec::new())
    }

    fn new_on_relays(members: &[&str], rule_m: u8, relays: Vec<String>) -> Builder {
        let mut keys: Vec<(String, SigningKey)> = Vec::new();
        let mut identities: Vec<MemberIdentity> = Vec::new();
        for (i, m) in members.iter().enumerate() {
            let sk = SigningKey { secret: [u8::try_from(i + 1).unwrap_or(1); 32] };
            identities.push(MemberIdentity {
                member: (*m).to_string(),
                identity_pk: identity_public(&sk),
                nostr_pk: "cc".repeat(32),
            });
            keys.push(((*m).to_string(), sk));
        }
        let rule_n = u8::try_from(members.len()).expect("small roster");
        let republic_id = republic_id("Chess Club", rule_m, rule_n, &identities);
        let change = ChainChange::Genesis {
            name: "Chess Club".to_string(),
            republic_id: republic_id.clone(),
            rule_m,
            rule_n,
            identities,
            agenda: "play chess".to_string(),
            features: None,
            relays,
        };
        let mut b = Builder {
            republic_id,
            keys,
            blocks: Vec::new(),
            head_hash: GENESIS_PREV.to_string(),
        };
        let block = b.seal(0, change, members);
        b.push(block);
        b
    }

    /// Signs `change` at `height` with each named member.
    fn seal(&self, height: u64, change: ChainChange, signers: &[&str]) -> ChainBlock {
        let bytes = approval_bytes(&self.republic_id, height, &change);
        let sigs = signers
            .iter()
            .map(|name| RosterAttestation {
                member: (*name).to_string(),
                sig: identity_sign(self.key(name), &bytes),
            })
            .collect();
        ChainBlock { height, prev: self.head_hash.clone(), change, sigs }
    }

    fn push(&mut self, block: ChainBlock) {
        self.head_hash = block_hash(&self.republic_id, &block);
        self.blocks.push(block);
    }

    fn next_height(&self) -> u64 {
        u64::try_from(self.blocks.len()).expect("small chain")
    }

    fn commit(&mut self, change: ChainChange, signers: &[&str]) {
        let block = self.seal(self.next_height(), change, signers);
        self.push(block);
    }

    /// Commits a note signed by `signers` at the next height.
    fn commit_applied(&mut self, proposal_id: u64, signers: &[&str]) {
        self.commit(
            ChainChange::Applied {
                proposal_id,
                surface: Surface::Memory,
                payload: note(proposal_id),
            },
            signers,
        );
    }

    /// Commits an edit of the organization.
    fn commit_org(&mut self, proposal_id: u64, op: &str, value: &str, signers: &[&str]) {
        self.commit(
            ChainChange::Applied {
                proposal_id,
                surface: Surface::Organization,
                payload: edit(op, value),
            },
            signers,
        );
    }

    /// Commits a wiki patch that adds a document.
    fn commit_wiki(&mut self, proposal_id: u64, path: &str, body: &str, signers: &[&str]) {
        self.commit(
            ChainChange::Applied {
                proposal_id,
                surface: Surface::Memory,
                payload: edit("wiki_patch", &new_file_patch(path, body)),
            },
            signers,
        );
    }

    /// Commits a returned seat that names a new transport key.
    fn commit_restored(&mut self, member: &str, nostr_pk: &str, signers: &[&str]) {
        let change = restored(member, &self.pk(member), Some(nostr_pk), None);
        self.commit(change, signers);
    }

    fn key(&self, member: &str) -> &SigningKey {
        &self.keys.iter().find(|(m, _)| m == member).expect("known member").1
    }

    fn pk(&self, member: &str) -> String {
        identity_public(self.key(member))
    }
}

fn text(t: &str) -> Payload {
    Payload::Text(t.to_string())
}

fn object(fields: Vec<(&str, Payload)>) -> Payload {
    Payload::Object(
        fields
            .into_iter()
            .map(|(name, value)| Field { name: name.to_string(), value })
            .collect(),
    )
}

fn note(id: u64) -> Payload {
    object(vec![("op", text("add_note")), ("id", Payload::Count(id))])
}

fn edit(op: &str, value: &str) -> Payload {
    object(vec![("op", text(op)), ("value", text(value))])
}

fn new_file_patch(path: &str, body: &str) -> String {
    let lines: Vec<&str> = body.split('\n').collect();
    let mut patch = format!(
        "diff --git a/{path} b/{path}\nnew file mode 100644\n--- /dev/null\n+++ b/{path}\n@@ -0,0 +1,{} @@\n",
        lines.len()
    );
    for l in lines {
        patch.push('+');
        patch.push_str(l);
        patch.push('\n');
    }
    patch
}

fn restored(
    member: &str,
    identity_pk: &str,
    nostr_pk: Option<&str>,
    consent: Option<String>,
) -> ChainChange {
    ChainChange::Membership {
        op: MembershipOp::Restored,
        member: member.to_string(),
        identity_pk: identity_pk.to_string(),
        nostr_pk: nostr_pk.map(str::to_string),
        relays: Vec::new(),
        consent,
    }
}

/// A seat's state that roots in the founding of `b` and holds `chain`.
fn peer_of(member: &str, roster: &[&str], b: &Builder, chain: Vec<ChainBlock>) -> State {
    let mut peer = State::new();
    peer.now = 1_751_000_000;
    peer.replica = Some(ReplicaState {
        name: "Chess Club".to_string(),
        member: member.to_string(),
        roster: roster.iter().map(|m| m.to_string()).collect(),
        rule_m: 2,
        identities: Vec::new(),
        agenda: "play chess".to_string(),
        features: None,
        republic_id: b.republic_id.clone(),
        founded_ts: 0,
    });
    peer.adopt_chain(chain);
    peer.effects.clear();
    peer
}

fn chain_peer(member: &str, b: &Builder, chain: Vec<ChainBlock>) -> State {
    peer_of(member, &["petra", "walter"], b, chain)
}

fn chain_peer_3(member: &str, b: &Builder) -> State {
    peer_of(member, &["petra", "walter", "dora"], b, b.blocks.clone())
}

/// A peer that can also sign.
fn chain_signer(member: &str, b: &Builder, chain: Vec<ChainBlock>) -> State {
    let mut s = chain_peer(member, b, chain);
    s.identity_sk = Some(*b.key(member));
    s
}

/// A chain of exactly `len` blocks.
fn grown_chain(len: usize) -> Builder {
    let mut b = Builder::new(&["petra", "walter"], 2);
    for id in 0..len.saturating_sub(1) {
        b.commit_applied(u64::try_from(id + 100).expect("small id"), &["petra", "walter"]);
    }
    assert_eq!(b.blocks.len(), len);
    b
}

/// A returning member's consent, signed with its own key.
fn consent_for(b: &Builder, member: &str, nostr_pk: &str) -> String {
    identity_sign(
        b.key(member),
        &restore_consent_bytes(&b.republic_id, member, &b.pk(member), nostr_pk),
    )
}

fn height(s: &State) -> u64 {
    s.head.as_ref().expect("head").height
}

/// The signature that a state holds of a member for a proposal.
fn sig_of(s: &State, id: u64, member: &str) -> String {
    s.pending_sigs
        .get(id)
        .expect("pending set")
        .sigs
        .iter()
        .find(|a| a.member == member)
        .expect("signed")
        .sig
        .clone()
}

/// The entries of a surface in a summary.
fn entries_of(groups: &Vec<AppliedGroup>, surface: Surface) -> Vec<AppliedEntry> {
    groups
        .iter()
        .find(|g| g.surface == surface)
        .map(|g| g.entries.clone())
        .unwrap_or_default()
}

/// The approvals and other events that a state asked its host to send.
fn sent(s: &State) -> Vec<WorkspaceEvent> {
    s.effects
        .iter()
        .filter_map(|e| match e {
            Effect::Send { body } => Some(body.clone()),
            _ => None,
        })
        .collect()
}

/// `s` hears a membership proposal.
fn hear_membership(s: &mut State, id: u64, change: ChainChange, canonical_anchor: bool) {
    let ChainChange::Membership { op, member, identity_pk, nostr_pk, relays, consent } = change
    else {
        panic!("a membership change")
    };
    s.receive_membership_proposal(
        id,
        op,
        &member,
        &identity_pk,
        nostr_pk,
        relays,
        consent,
        canonical_anchor,
    );
}


fn titled(proposal_id: u64, title: &str) -> ChainChange {
    ChainChange::Applied {
        proposal_id,
        surface: Surface::Memory,
        payload: object(vec![("op", text("add_note")), ("title", text(title))]),
    }
}

#[test]
fn a_headless_node_refuses_another_republics_genesis() {
    let b = Builder::new(&["petra", "walter"], 2);
    let other = Builder::new(&["mallory", "walter"], 2);
    let mut walter = chain_peer("walter", &b, b.blocks.clone());
    walter.blocks.clear();
    walter.head = None;
    walter.walk = None;
    // the two foundings differ in their names, so in their republic ids
    assert_ne!(other.republic_id, b.republic_id);
    walter.receive_block(other.blocks[0].clone());
    assert!(walter.head.is_none(), "a foreign genesis is not adopted");
    walter.receive_block(b.blocks[0].clone());
    assert!(walter.head.is_some(), "the own genesis is");
}

/// Two contending blocks at height 1, the one with the lower hash first.
fn contenders(b: &Builder) -> (ChainBlock, u64, ChainBlock, u64) {
    let block_a = b.seal(1, titled(7, "a"), &["petra", "walter"]);
    let block_b = b.seal(1, titled(9, "b"), &["petra", "walter"]);
    let hash = |blk: &ChainBlock| content_hash(&block_link_bytes(&b.republic_id, blk));
    if hash(&block_a) < hash(&block_b) {
        (block_a, 7, block_b, 9)
    } else {
        (block_b, 9, block_a, 7)
    }
}

fn card_state(s: &State, id: u64) -> Option<ProposalState> {
    s.proposals.get(id).map(|p| p.state)
}

#[test]
fn tie_break_drops_a_materialized_card_with_its_displaced_block() {
    let b = Builder::new(&["petra", "walter"], 2);
    let (winner, winner_id, loser, loser_id) = contenders(&b);
    let mut peer = chain_peer("walter", &b, b.blocks.clone());
    peer.receive_block(loser);
    assert_eq!(
        card_state(&peer, loser_id),
        Some(ProposalState::Applied),
        "the loser's card is materialized while its block stands"
    );

    peer.receive_block(winner);
    assert_eq!(peer.blocks.len(), 2);
    let tip = peer.blocks.last().expect("tip");
    assert!(
        matches!(&tip.change, ChainChange::Applied { proposal_id, .. } if *proposal_id == winner_id),
        "the lower hash holds the tip"
    );
    assert!(
        !peer.proposals.contains_key(loser_id),
        "the materialized card vanished with its displaced block - no phantom open card"
    );
    assert_eq!(
        card_state(&peer, winner_id),
        Some(ProposalState::Applied),
        "the winner's card stands, chain-proven"
    );
}

#[test]
fn both_orders_of_a_contest_end_alike() {
    let b = Builder::new(&["petra", "walter"], 2);
    let (winner, winner_id, loser, _) = contenders(&b);
    for order in [[winner.clone(), loser.clone()], [loser, winner]] {
        let mut peer = chain_peer("walter", &b, b.blocks.clone());
        for block in order {
            peer.receive_block(block);
        }
        let tip = peer.blocks.last().expect("tip");
        assert!(
            matches!(&tip.change, ChainChange::Applied { proposal_id, .. } if *proposal_id == winner_id)
        );
    }
}

#[test]
fn a_peer_adopts_a_broadcast_block_and_converges() {
    let b = Builder::new(&["petra", "walter"], 2);
    let block = b.seal(1, titled(1, "minutes"), &["petra", "walter"]);

    let mut peer = chain_peer("walter", &b, b.blocks.clone());
    assert!(peer.is_chain_governed());
    assert_eq!(height(&peer), 0);

    peer.receive_block(block);
    assert_eq!(peer.blocks.len(), 2, "the peer adopted the broadcast block");
    assert_eq!(height(&peer), 1);
    let applied = entries_of(&peer.applied, Surface::Memory);
    assert_eq!(applied.len(), 1);
    assert_eq!(applied[0].id, 1, "the projection keeps the proposal id");
    assert_eq!(applied[0].payload.text("title").map(String::as_str), Some("minutes"));

    let mut forged = b.seal(2, titled(2, "real"), &["petra", "walter"]);
    forged.prev = peer.head.as_ref().expect("head").hash.clone();
    forged.change = titled(2, "forged");
    peer.receive_block(forged);
    assert_eq!(peer.blocks.len(), 2, "a tampered block is hard-rejected");
}

#[test]
fn out_of_order_blocks_buffer_and_converge() {
    let mut b = Builder::new(&["petra", "walter"], 2);
    let genesis = b.blocks.clone();
    b.commit_applied(1, &["petra", "walter"]);
    b.commit_applied(2, &["petra", "walter"]);

    let mut peer = chain_peer("walter", &b, genesis);
    peer.receive_block(b.blocks[2].clone());
    assert_eq!(height(&peer), 0, "a gap block is buffered, not applied");
    assert_eq!(peer.pending_blocks.len(), 1);
    peer.receive_block(b.blocks[1].clone());
    assert_eq!(height(&peer), 2);
    assert!(peer.pending_blocks.is_empty(), "the buffer drained");
}

#[test]
fn a_survivor_serves_a_lagging_member_the_full_suffix() {
    let mut b = Builder::new(&["petra", "walter"], 2);
    let genesis = b.blocks.clone();
    b.commit_applied(1, &["petra", "walter"]);
    b.commit_applied(2, &["petra", "walter"]);

    let mut peer = chain_peer("walter", &b, genesis);
    assert_eq!(height(&peer), 0);

    let mut survivor = chain_peer("petra", &b, b.blocks.clone());
    survivor.serve_chain_from(1, true);
    let served: Vec<ChainBlock> = sent(&survivor)
        .into_iter()
        .filter_map(|e| match e {
            WorkspaceEvent::Committed { block } => Some(block),
            _ => None,
        })
        .collect();
    assert_eq!(served.len(), 2, "survivor serves b1 + b2 from its chain");
    for bl in served.into_iter().rev() {
        peer.receive_block(bl);
    }
    assert_eq!(height(&peer), 2, "the lagging member caught up to the survivor");
    assert!(peer.pending_blocks.is_empty());
}

fn split_bootstrap(events: &[WorkspaceEvent]) -> (Option<CheckpointState>, Vec<ChainBlock>) {
    let mut blob = None;
    let mut blocks = Vec::new();
    for ev in events {
        match ev {
            WorkspaceEvent::CheckpointServed { blob: b } => blob = Some(b.clone()),
            WorkspaceEvent::Committed { block } => blocks.push(block.clone()),
            other => panic!("a bootstrap offer carries nothing else: {other:?}"),
        }
    }
    (blob, blocks)
}

#[test]
fn the_served_anchor_is_the_smallest_prefix_that_verifies() {
    let mut b = Builder::new(&["petra", "walter"], 2);
    b.commit_applied(1, &["petra", "walter"]);
    b.commit_applied(2, &["petra", "walter"]);

    let full = chain_peer("walter", &b, b.blocks.clone());
    let (blob, blocks) = split_bootstrap(&full.anchor_bootstrap(true));
    assert!(blob.is_none(), "a full holder has no blob to offer");
    assert_eq!(blocks.len(), 1, "the genesis and nothing else - not the chain");
    assert_eq!(blocks[0].height, 0);
    let (head, sealed) = verify_served(blob.as_ref(), &blocks, Some(&b.republic_id))
        .expect("the genesis verifies standalone");
    assert_eq!(head.height, 0, "a length-1 chain is a valid chain");
    assert_eq!(sealed.republic_id, b.republic_id);

    let blob_at_2 = checkpoint_state(&b.blocks, 2).expect("state@2");
    let anchor = b.seal(
        3,
        ChainChange::Checkpoint { upto: 2, state_hash: checkpoint_state_hash(&blob_at_2) },
        &["petra", "walter"],
    );
    b.push(anchor.clone());
    let mut pruned = chain_peer("walter", &b, b.blocks[..3].to_vec());
    pruned.receive_block(anchor);
    assert!(pruned.checkpoint_blob.is_some(), "the holder pruned");

    let (blob, blocks) = split_bootstrap(&pruned.anchor_bootstrap(true));
    assert!(blob.is_some(), "a pruned holder's blob IS its trust root");
    assert_eq!(blocks.len(), 1, "the anchor block alone, not the suffix");
    assert_eq!(blocks[0].height, 3);
    let (head, _) = verify_served(blob.as_ref(), &blocks, Some(&b.republic_id))
        .expect("blob + anchor verify standalone under the suffix rules");
    assert_eq!(head.height, 3, "the rejoiner starts at the cut, not at zero");

    let before = (pruned.blocks.clone(), height(&pruned));
    pruned.serve_chain_anchor(true);
    assert_eq!(pruned.blocks, before.0, "serving must not move the server's chain");
    assert_eq!(height(&pruned), before.1, "nor its head");
}

#[test]
fn a_far_future_block_is_refused_not_buffered() {
    let b = Builder::new(&["petra", "walter"], 2);
    let mut walter = chain_signer("walter", &b, b.blocks.clone());
    let junk = |height: u64| ChainBlock {
        height,
        prev: "00".to_string(),
        change: ChainChange::Applied {
            proposal_id: height,
            surface: Surface::Memory,
            payload: object(vec![("op", text("add_note"))]),
        },
        sigs: Vec::new(),
    };
    walter.receive_block(junk(u64::MAX / 2));
    assert!(walter.pending_blocks.is_empty(), "a block far past the head never buffers");
    walter.receive_block(junk(3));
    assert_eq!(walter.pending_blocks.len(), 1, "a near gap buffers for the drain");
}

/// How often the chain was handed over to be written.
fn writes_of(s: &State) -> usize {
    s.effects.iter().filter(|e| matches!(e, Effect::PersistChain { .. })).count()
}

#[test]
fn catching_up_verifies_each_block_once() {
    const N: usize = 40;
    let b = grown_chain(N + 1);
    let mut peer = chain_peer("walter", &b, b.blocks[..1].to_vec());

    // a mark in the walk is gone as soon as the chain is walked anew
    let mark = 999_999;
    let mut walk = peer.walk.take().expect("walk");
    let start = walk.head.height;
    walk.seen.insert(mark);
    peer.walk = Some(walk);
    let writes_before = writes_of(&peer);
    for block in b.blocks[1..].iter().rev() {
        peer.receive_block(block.clone());
    }
    let walk = peer.walk.as_ref().expect("walk");
    assert!(walk.seen.contains(&mark), "the walk was extended, never walked anew");
    let steps = usize::try_from(walk.head.height - start).expect("small chain");
    let writes = writes_of(&peer) - writes_before;

    assert_eq!(height(&peer), u64::try_from(N).expect("small chain"), "the whole suffix drained");
    assert_eq!(steps, N, "each block is verified exactly once");
    assert_eq!(writes, 1, "the drained batch is written ONCE");
}

#[test]
fn an_accepted_block_is_written_once_and_a_refused_one_not_at_all() {
    let mut b = Builder::new(&["petra", "walter"], 2);
    let genesis = b.blocks.clone();
    b.commit_applied(1, &["petra", "walter"]);
    let mut peer = chain_peer("walter", &b, genesis);

    let before = writes_of(&peer);
    peer.receive_block(b.blocks[1].clone());
    assert_eq!(height(&peer), 1);
    assert_eq!(writes_of(&peer) - before, 1, "an accepted block is written");

    let refused = b.seal(
        2,
        ChainChange::Applied { proposal_id: 2, surface: Surface::Memory, payload: note(2) },
        &["petra"],
    );
    let before = writes_of(&peer);
    peer.receive_block(refused);
    assert_eq!(height(&peer), 1);
    assert_eq!(writes_of(&peer) - before, 0, "a refused block writes nothing");
}

#[test]
fn a_headless_rejoiner_bootstraps_from_a_served_genesis() {
    let mut b = Builder::new(&["petra", "walter"], 2);
    b.commit_applied(1, &["petra", "walter"]);
    b.commit_applied(2, &["petra", "walter"]);

    let mut rejoiner = State::new();
    assert!(!rejoiner.is_chain_governed());

    rejoiner.receive_block(b.blocks[2].clone());
    assert!(!rejoiner.is_chain_governed());
    assert_eq!(rejoiner.pending_blocks.len(), 1);

    rejoiner.receive_block(b.blocks[0].clone());
    assert!(rejoiner.is_chain_governed(), "adopted the served genesis");
    assert_eq!(height(&rejoiner), 0);

    rejoiner.receive_block(b.blocks[1].clone());
    assert_eq!(height(&rejoiner), 2, "the rejoiner caught up the full chain from genesis");
    assert!(rejoiner.pending_blocks.is_empty());
}

#[test]
fn an_oversized_checkpoint_blob_is_never_served() {
    // what one frame holds
    let ceiling = 256 * 1024;
    let mut b = Builder::new(&["petra", "walter"], 2);
    b.commit_applied(1, &["petra", "walter"]);
    let blob = checkpoint_state(&b.blocks, 1).expect("state@1");
    assert!(
        served_blob_fits(checkpoint_canonical_bytes(&blob).len(), ceiling),
        "an ordinary blob is servable"
    );

    let mut fat = blob.clone();
    fat.applied = vec![AppliedGroup {
        surface: Surface::Memory,
        entries: (0..2_000u64)
            .map(|id| AppliedEntry {
                id,
                payload: object(vec![("op", text("add_note")), ("text", text(&"x".repeat(200)))]),
            })
            .collect(),
    }];
    assert!(
        !served_blob_fits(checkpoint_canonical_bytes(&fat).len(), ceiling),
        "a blob past the frame budget is refused before it can stall the outbox"
    );
}

#[test]
fn a_blob_that_does_not_fit_is_not_sent() {
    let mut b = Builder::new(&["petra", "walter"], 2);
    b.commit_applied(1, &["petra", "walter"]);
    let blob = checkpoint_state(&b.blocks, 1).expect("state@1");
    let anchor = b.seal(
        2,
        ChainChange::Checkpoint { upto: 1, state_hash: checkpoint_state_hash(&blob) },
        &["petra", "walter"],
    );
    let mut pruned = chain_peer("walter", &b, b.blocks.clone());
    pruned.receive_block(anchor);
    assert!(pruned.checkpoint_blob.is_some());
    pruned.effects.clear();
    pruned.serve_chain_from(0, false);
    assert!(
        !sent(&pruned).iter().any(|e| matches!(e, WorkspaceEvent::CheckpointServed { .. })),
        "a blob that fits no frame is kept back"
    );
    pruned.effects.clear();
    pruned.serve_chain_from(0, true);
    assert!(sent(&pruned).iter().any(|e| matches!(e, WorkspaceEvent::CheckpointServed { .. })));
}
