//! Sealing: signing an approval, sealing a block at the threshold, what every
//! applied block brings with it, re-signing what still stands at the new
//! height, and the checkpoint that proposes itself.

use crate::canonical;
use crate::canonical::approval_bytes;
use crate::fold;
use crate::fold::checkpoint_state_hash;
use crate::governance;
use crate::identity;
use crate::identity::identity_sign;
use crate::model::{
    AttestationV, BlockV, ChainBlock, ChainChange, ChangeV, IdentityV, MemberIdentity,
    MembershipOp, Surface,
};
use crate::patches::is_open_patch;
use crate::payload::Payload;
use crate::projection;
use crate::projection::DecisionV;
use crate::signers;
use crate::state;
use crate::state::{
    add_id, has_id, next_after, Effect, EffectV, Event, EventV, PendingApproval, PendingV,
    ProposalRecord, ProposalState, RecordV, State, StateV, WireV, WorkspaceEvent,
};
use crate::table;
use crate::table::Table;
use crate::text;
use crate::text::text_before;
use crate::votes;
use crate::votes::{drop_name, is_seated};
use crate::walk;
use vstd::prelude::*;
use vstd::string::*;

verus! {

/// The number of blocks held at which the lowest-named member proposes the
/// next compaction cut.
pub const AUTO_CHECKPOINT_MIN_LEN: usize = 32;

/// Why a checkpoint cannot be proposed without a chain.
pub open spec fn ungoverned() -> Seq<char> {
    "checkpoints need a chain-governed republic"@
}

/// The blocks from that height on.
pub open spec fn blocks_from(blocks: Seq<BlockV>, height: u64) -> Seq<BlockV>
    decreases blocks.len(),
{
    if blocks.len() == 0 {
        blocks
    } else if blocks.last().height >= height {
        blocks_from(blocks.drop_last(), height).push(blocks.last())
    } else {
        blocks_from(blocks.drop_last(), height)
    }
}

/// The blocks from that height on.
pub fn keep_from(blocks: &Vec<ChainBlock>, height: u64) -> (r: Vec<ChainBlock>)
    ensures
        r.deep_view() == blocks_from(blocks.deep_view(), height),
{
    let ghost all = blocks.deep_view();
    let mut out: Vec<ChainBlock> = Vec::new();
    let mut i: usize = 0;
    assert(all.take(0) =~= Seq::empty());
    assert(out.deep_view() =~= Seq::empty());
    while i < blocks.len()
        invariant
            i <= blocks.len(),
            all == blocks.deep_view(),
            out.deep_view() == blocks_from(all.take(i as int), height),
        decreases blocks.len() - i,
    {
        let ghost done = out.deep_view();
        proof {
            assert(all.take(i + 1).drop_last() =~= all.take(i as int));
            assert(all.take(i + 1).last() == blocks@[i as int].deep_view());
        }
        if blocks[i].height >= height {
            out.push(blocks[i].clone());
            assert(out.deep_view() =~= done.push(blocks@[i as int].deep_view()));
        }
        i = i + 1;
    }
    assert(all.take(i as int) =~= all);
    out
}

/// The proposals whose collected signatures are for a height below `target`.
pub open spec fn ids_below(pending: Seq<(u64, PendingV)>, target: u64) -> Seq<u64>
    decreases pending.len(),
{
    if pending.len() == 0 {
        Seq::empty()
    } else if pending.last().1.height < target {
        ids_below(pending.drop_last(), target).push(pending.last().0)
    } else {
        ids_below(pending.drop_last(), target)
    }
}

/// The proposals whose collected signatures are for a height below `target`.
pub fn find_below(pending: &Table<PendingApproval>, target: u64) -> (r: Vec<u64>)
    ensures
        r@ == ids_below(pending.deep_view(), target),
{
    let ghost all = pending.deep_view();
    let rows = pending.rows();
    let mut out: Vec<u64> = Vec::new();
    let mut i: usize = 0;
    assert(all.take(0) =~= Seq::empty());
    while i < rows.len()
        invariant
            i <= rows.len(),
            all == pending.deep_view(),
            all == rows.deep_view(),
            out@ == ids_below(all.take(i as int), target),
        decreases rows.len() - i,
    {
        proof {
            assert(all.take(i + 1).drop_last() =~= all.take(i as int));
            assert(all.take(i + 1).last() == rows@[i as int].deep_view());
        }
        if rows[i].value.height < target {
            out.push(rows[i].key);
        }
        i = i + 1;
    }
    assert(all.take(i as int) =~= all);
    out
}

/// Is this a cut below that height?
pub open spec fn cuts_below(change: ChangeV, height: u64) -> bool {
    change is Checkpoint && change->Checkpoint_upto < height
}

/// The registered cuts below that height: they can never seal.
pub open spec fn stale_cuts(changes: Seq<(u64, ChangeV)>, height: u64) -> Seq<u64>
    decreases changes.len(),
{
    if changes.len() == 0 {
        Seq::empty()
    } else if cuts_below(changes.last().1, height) {
        stale_cuts(changes.drop_last(), height).push(changes.last().0)
    } else {
        stale_cuts(changes.drop_last(), height)
    }
}

/// The registered cuts below that height.
pub fn find_stale_cuts(changes: &Table<ChainChange>, height: u64) -> (r: Vec<u64>)
    ensures
        r@ == stale_cuts(changes.deep_view(), height),
{
    let ghost all = changes.deep_view();
    let rows = changes.rows();
    let mut out: Vec<u64> = Vec::new();
    let mut i: usize = 0;
    assert(all.take(0) =~= Seq::empty());
    while i < rows.len()
        invariant
            i <= rows.len(),
            all == changes.deep_view(),
            all == rows.deep_view(),
            out@ == stale_cuts(all.take(i as int), height),
        decreases rows.len() - i,
    {
        proof {
            assert(all.take(i + 1).drop_last() =~= all.take(i as int));
            assert(all.take(i + 1).last() == rows@[i as int].deep_view());
        }
        let cut = match rows[i].value {
            ChainChange::Checkpoint { upto, .. } => *upto < height,
            _ => false,
        };
        if cut {
            out.push(rows[i].key);
        }
        i = i + 1;
    }
    assert(all.take(i as int) =~= all);
    out
}

/// Is that member the lowest-named seat?
pub open spec fn leads(identities: Seq<IdentityV>, member: Seq<char>) -> bool {
    &&& votes::seated(identities, member)
    &&& forall|i: int|
        0 <= i < identities.len() ==> !text::before((#[trigger] identities[i]).member, member)
}

/// Is that member the lowest-named seat?
pub fn is_lowest(identities: &Vec<MemberIdentity>, member: &str) -> (r: bool)
    ensures
        r == leads(identities.deep_view(), member@),
{
    let ghost all = identities.deep_view();
    if !is_seated(identities, member) {
        return false;
    }
    let mut i: usize = 0;
    while i < identities.len()
        invariant
            i <= identities.len(),
            all == identities.deep_view(),
            forall|k: int| 0 <= k < i ==> !text::before((#[trigger] all[k]).member, member@),
        decreases identities.len() - i,
    {
        assert(all[i as int] == identities@[i as int].deep_view());
        if text_before(identities[i].member.as_str(), member) {
            return false;
        }
        i = i + 1;
    }
    true
}

/// Is some card open?
pub open spec fn some_open(cards: Seq<(u64, RecordV)>) -> bool {
    exists|i: int|
        0 <= i < cards.len() && (#[trigger] cards[i]).1.state == ProposalState::Proposed
}

/// Is some cut registered?
pub open spec fn some_cut(changes: Seq<(u64, ChangeV)>) -> bool {
    exists|i: int| 0 <= i < changes.len() && (#[trigger] changes[i]).1 is Checkpoint
}

impl StateV {
    /// How many heights are left above the head.
    pub open spec fn room(self) -> nat {
        (u64::MAX - self.height()) as nat
    }

    /// Does the block fit the own chain?
    pub open spec fn accepts(self, block: BlockV) -> bool {
        self.extension(block) is Ok
    }

    /// A block that fits appended and projected. One that does not leaves the
    /// chain as it was.
    pub open spec fn appending(self, block: BlockV) -> StateV {
        match self.extension(block) {
            Err(e) => self.walk_kept(block),
            Ok(head) => {
                let projected = (StateV { head: Some(head), ..self.walk_kept(block) }).projecting(
                    block,
                );
                (StateV { blocks: projected.blocks.push(block), ..projected }).minting_past_chain()
            },
        }
    }

    /// The chain anchored on its own summary at `upto`, without the blocks below
    /// `height`. Where the chain has no such summary, nothing is dropped.
    pub open spec fn pruned_to(self, upto: u64, height: u64) -> StateV {
        match self.own_summary(upto) {
            Err(e) => self,
            Ok(blob) => {
                let cut = self.anchored_on(Some(blob));
                (StateV { blocks: blocks_from(cut.blocks, height), ..cut }).chain_applied(
                ).persisting().emitting(EventV::CheckpointSealed { height, upto })
            },
        }
    }

    /// What an applied change settles on every holder.
    pub open spec fn block_settled(self, block: BlockV) -> StateV {
        match block.change {
            ChangeV::Applied { proposal_id, surface, payload } => {
                let carded = self.card_made(
                    DecisionV { id: proposal_id, surface, payload },
                ).card_applied(proposal_id).stashing(proposal_id);
                let told = (StateV {
                    pending_sigs: table::del(carded.pending_sigs, proposal_id),
                    ..carded
                }).emitting(EventV::Applied { id: proposal_id, surface });
                if surface == Surface::Organization {
                    told.doing(EffectV::OrgApplied)
                } else {
                    told
                }
            },
            ChangeV::Membership { op: MembershipOp::Joined, .. } => self.membership_settled(
                block.change,
            ),
            ChangeV::Membership { op: MembershipOp::Restored, member, .. } => {
                let settled = self.membership_settled(block.change);
                let free = StateV {
                    announce_cooldown: votes::names_without(settled.announce_cooldown, member),
                    ..settled
                };
                let reported = match free.final_progress(block) {
                    Some(report) => free.doing(EffectV::RecoverProgress { report }),
                    None => free,
                };
                reported.rekeying(member)
            },
            ChangeV::Checkpoint { upto, .. } => self.forgetting_change(block.change).pruned_to(
                upto,
                block.height,
            ),
            ChangeV::Genesis { .. } => self,
        }
    }

    /// Cuts that can no longer seal dropped, each announced.
    pub open spec fn sweeping(self, ids: Seq<u64>) -> StateV
        decreases ids.len(),
    {
        if ids.len() == 0 {
            self
        } else {
            let rest = self.sweeping(ids.drop_last());
            (StateV {
                proposal_changes: table::del(rest.proposal_changes, ids.last()),
                pending_sigs: table::del(rest.pending_sigs, ids.last()),
                ..rest
            }).emitting(EventV::CheckpointStale { id: ids.last() })
        }
    }

    /// This holder's signature over `change` at `height`.
    pub open spec fn own_signature(self, height: u64, change: ChangeV) -> AttestationV {
        AttestationV {
            member: self.me(),
            sig: identity::signature_text(
                self.identity_sk->0,
                canonical::approval_bytes_of(self.rid(), height, change),
            ),
        }
    }

    /// Can this holder sign `id` at the next height?
    pub open spec fn can_sign(self, id: u64) -> bool {
        self.identity_sk is Some && self.target() is Some && self.change_for(id) is Some
    }

    /// This holder's approval of `id` decided, collected and sent.
    pub open spec fn voicing(self, id: u64) -> StateV {
        let height = self.target()->0;
        let att = self.own_signature(height, self.change_for(id)->0);
        let decided = StateV { own_approvals: state::with_id(self.own_approvals, id), ..self };
        decided.collecting(id, height, att, true).marking(id, att.member).recording(
            WireV::Approved { id, by: att.member, height, sig: att.sig },
        )
    }

    /// This holder's approval of `id` signed and sent; then the block that it
    /// may complete.
    pub open spec fn signing(self, id: u64) -> StateV
        decreases self.room(), 2nat, 0nat,
    {
        if self.can_sign(id) {
            self.voicing(id).committing(id)
        } else {
            self
        }
    }

    /// The block that the collected signatures for `id` seal, sealed.
    pub open spec fn committing(self, id: u64) -> StateV
        decreases self.room(), 1nat, 0nat,
    {
        match self.sealable(id) {
            Some(block) => self.sealing(block, id),
            None => self,
        }
    }

    /// A sealed block told to the members; a decision is told to those who
    /// discuss it, too.
    pub open spec fn announced(self, block: BlockV, id: u64) -> StateV {
        let sent = self.recording(WireV::Committed { block });
        match block.change {
            ChangeV::Applied { payload, .. } => sent.doing(
                EffectV::DecisionSummary { id, payload },
            ),
            _ => sent,
        }
    }

    /// What follows once it is known whether the chain with a sealed block was
    /// written. Only what the storage holds is told: the others seal the same
    /// block themselves.
    pub open spec fn seal_written(self, durable: bool, block: BlockV, id: u64) -> StateV {
        if durable {
            self.announced(block, id).auto_checkpointing()
        } else {
            self
        }
    }

    /// A block sealed here: appended, handed to the storage and settled. It is
    /// told to the members once it is known to be written; without a storage,
    /// at once, unless the host was asked about wiki patches: then once it has
    /// answered. What settling brings (a returning member's re-key above all)
    /// goes out before the block does.
    pub open spec fn sealing(self, block: BlockV, id: u64) -> StateV
        decreases (u64::MAX - block.height) as nat, 6nat, 0nat,
    {
        if !self.accepts(block) {
            self.appending(block)
        } else {
            proof {
                lemma_appended_head(self, block);
            }
            let settled = self.appending(block).persisting().after_applied(block).forgetting(id);
            if self.stored || settled.wiki_asked > 0 {
                settled.doing(EffectV::Sealed { id, block })
            } else {
                let noted = settled.announced(block, id);
                if noted.height() < block.height {
                    noted
                } else {
                    noted.auto_checkpointing()
                }
            }
        }
    }

    /// What an applied block brings on every holder: what it settles, then
    /// the standing approvals moved to the new height.
    pub open spec fn after_applied(self, block: BlockV) -> StateV
        decreases self.room(), 5nat, 0nat,
    {
        proof {
            lemma_block_settled_head(self, block);
        }
        self.block_settled(block).rebasing()
    }

    /// The votes moved to the height above the head: cuts below the head are
    /// dropped, the signatures for lower heights cleared, and this holder's
    /// own approvals of what is still open signed again.
    pub open spec fn rebasing(self) -> StateV
        decreases self.room(), 4nat, 0nat,
    {
        match self.target() {
            None => self,
            Some(target) => {
                proof {
                    lemma_sweeping_frame(
                        StateV { votes_wait: false, ..self },
                        stale_cuts(self.proposal_changes, self.height()),
                    );
                }
                (StateV { votes_wait: false, ..self }).sweeping(
                    stale_cuts(self.proposal_changes, self.height()),
                ).resigning(ids_below(self.pending_sigs, target))
            },
        }
    }

    /// The collected signatures of those proposals cleared, and the ones that
    /// this holder itself approved and that are still open signed again. At a
    /// wiki patch that the base may have left behind this stops, to go on once
    /// the host has answered.
    pub open spec fn resigning(self, ids: Seq<u64>) -> StateV
        decreases self.room(), 3nat, ids.len(),
    {
        if ids.len() == 0 {
            self
        } else if self.vote_waits(ids[0]) {
            StateV { votes_wait: true, ..self }
        } else {
            let cleared = StateV { pending_sigs: table::del(self.pending_sigs, ids[0]), ..self };
            let signed = if self.own_approvals.contains(ids[0]) && self.card_state(ids[0]) == Some(
                ProposalState::Proposed,
            ) {
                cleared.signing(ids[0])
            } else {
                cleared
            };
            if signed.height() < self.height() {
                signed
            } else {
                signed.resigning(ids.skip(1))
            }
        }
    }

    /// A peer's signed approval heard. An empty signature, a height above the
    /// next one and an id out of reach are passed over.
    pub open spec fn approval_heard(self, id: u64, height: u64, att: AttestationV) -> StateV {
        if att.sig.len() == 0 || (self.target() is Some && height > self.target()->0)
            || !self.plausible(id) {
            self
        } else {
            let verified = self.approves(id, height, att);
            let collected = self.collecting(id, height, att, verified);
            let marked = if verified {
                collected.marking(id, att.member)
            } else {
                collected
            };
            marked.committing(id)
        }
    }

    /// Is a vote open: a card, signatures being collected, or a cut in flight?
    pub open spec fn vote_open(self) -> bool {
        some_open(self.proposals) || self.pending_sigs.len() > 0 || some_cut(self.proposal_changes)
    }

    /// Is it for this holder to propose the next cut now? It is for the
    /// lowest-named member alone, once the chain is long enough, while
    /// nothing is being caught up with and no vote is open.
    pub open spec fn owes_checkpoint(self) -> bool {
        &&& self.blocks.len() >= AUTO_CHECKPOINT_MIN_LEN
        &&& self.target() is Some
        &&& self.catchup_from is None
        &&& !table::has(self.pending_blocks, self.target()->0)
        &&& leads(self.head->0.identities, self.me())
        &&& !self.vote_open()
    }

    /// The next cut proposed, where it is for this holder to do so.
    pub open spec fn auto_checkpointing(self) -> StateV
        decreases self.room(), 4nat, 0nat,
    {
        if self.owes_checkpoint() {
            self.proposing_checkpoint()
        } else {
            self
        }
    }

    /// The id of a cut proposed at the head, or why none can be.
    pub open spec fn checkpoint_outcome(self) -> Result<u64, Seq<char>> {
        match self.head {
            None => Err(ungoverned()),
            Some(head) => match self.own_summary(head.height) {
                Err(e) => Err(e.text()),
                Ok(summary) => Ok(self.next_id),
            },
        }
    }

    /// A cut at the head registered and announced.
    pub open spec fn checkpoint_announced(self) -> StateV {
        let upto = self.height();
        let state_hash = fold::state_hash_of(self.own_summary(upto)->Ok_0);
        (StateV {
            next_id: state::after(self.next_id),
            proposal_changes: table::put(
                self.proposal_changes,
                self.next_id,
                ChangeV::Checkpoint { upto, state_hash },
            ),
            ..self
        }).recording(WireV::CheckpointProposed { id: self.next_id, upto, state_hash })
    }

    /// A cut at the head proposed, and signed where proposers sign.
    pub open spec fn proposing_checkpoint(self) -> StateV
        decreases self.room(), 3nat, 0nat,
    {
        if self.checkpoint_outcome() is Err {
            self
        } else if self.self_cosign {
            self.checkpoint_announced().signing(self.next_id)
        } else {
            self.checkpoint_announced()
        }
    }
}

/// An accepted block is the new head.
pub proof fn lemma_appended_head(s: StateV, block: BlockV)
    requires
        s.accepts(block),
    ensures
        s.appending(block).head is Some,
        s.appending(block).head == Some(s.extension(block)->Ok_0),
        s.appending(block).height() == block.height,
        s.appending(block).blocks == s.blocks.push(block),
        same_sync(s.appending(block), s),
{
    reveal(walk::stepped);
    reveal(signers::next_head);
}

/// Do two states agree on the chain and on everything that verifies it?
pub open spec fn same_chain(a: StateV, b: StateV) -> bool {
    &&& a.head == b.head
    &&& a.blocks == b.blocks
    &&& a.walk == b.walk
    &&& a.checkpoint_blob == b.checkpoint_blob
    &&& a.replica == b.replica
    &&& a.applied == b.applied
    &&& a.applied_sigs == b.applied_sigs
    &&& a.own_approvals == b.own_approvals
    &&& a.pending_blocks == b.pending_blocks
    &&& a.fork_candidates == b.fork_candidates
    &&& a.next_id == b.next_id
    &&& a.stored == b.stored
}

/// Do two states agree on what is being synchronized, and on whose seat and
/// republic it is?
pub open spec fn same_sync(a: StateV, b: StateV) -> bool {
    &&& a.pending_blocks == b.pending_blocks
    &&& a.fork_candidates == b.fork_candidates
    &&& a.pending_served_blob == b.pending_served_blob
    &&& a.catchup_from == b.catchup_from
    &&& a.drain_waits == b.drain_waits
    &&& a.diverged == b.diverged
    &&& a.peer_heights == b.peer_heights
    &&& a.stored == b.stored
    &&& a.identity_sk == b.identity_sk
    &&& a.self_cosign == b.self_cosign
    &&& a.me() == b.me()
    &&& a.rid() == b.rid()
}

/// Forgetting votes leaves the chain alone.
pub proof fn lemma_forgetting_frame(s: StateV, ids: Seq<u64>)
    ensures
        same_chain(s.forgetting_each(ids), s),
        same_sync(s.forgetting_each(ids), s),
    decreases ids.len(),
{
    if ids.len() > 0 {
        lemma_forgetting_frame(s, ids.drop_last());
    }
}

/// Applying cards leaves the chain alone.
pub proof fn lemma_cards_applied_frame(s: StateV, ids: Seq<u64>)
    ensures
        same_chain(s.cards_applied(ids), s),
        same_sync(s.cards_applied(ids), s),
    decreases ids.len(),
{
    if ids.len() > 0 {
        lemma_cards_applied_frame(s, ids.drop_last());
    }
}

/// Settling a membership change leaves the chain alone.
pub proof fn lemma_membership_frame(s: StateV, sealed: ChangeV)
    ensures
        same_chain(s.membership_settled(sealed), s),
        same_sync(s.membership_settled(sealed), s),
{
    match sealed {
        ChangeV::Membership { op, member, .. } => {
            let ids = governance::open_cards_of(s.proposals, op, member);
            lemma_cards_applied_frame(s, ids);
            let applied = s.cards_applied(ids);
            lemma_forgetting_frame(
                applied,
                governance::ids_naming(applied.proposal_changes, sealed),
            );
        },
        _ => {},
    }
}

/// Making cards leaves the chain alone.
pub proof fn lemma_cards_made_frame(s: StateV, missing: Seq<DecisionV>)
    ensures
        same_chain(s.cards_made(missing), s),
        same_sync(s.cards_made(missing), s),
    decreases missing.len(),
{
    if missing.len() > 0 {
        lemma_cards_made_frame(s, missing.drop_last());
    }
}

/// Settling cards leaves the chain alone.
pub proof fn lemma_cards_settled_frame(s: StateV, open: Seq<projection::CardRefV>)
    ensures
        same_chain(s.cards_settled(open), s),
        same_sync(s.cards_settled(open), s),
    decreases open.len(),
{
    if open.len() > 0 {
        lemma_cards_settled_frame(s, open.drop_last());
    }
}

/// Settling membership changes leaves the chain alone.
pub proof fn lemma_memberships_frame(s: StateV, blocks: Seq<BlockV>)
    ensures
        same_chain(s.memberships_settled(blocks), s),
        same_sync(s.memberships_settled(blocks), s),
    decreases blocks.len(),
{
    if blocks.len() > 0 {
        lemma_memberships_frame(s, blocks.drop_last());
        lemma_membership_frame(
            s.memberships_settled(blocks.drop_last()),
            blocks.last().change,
        );
    }
}

/// Settling the cards against the chain leaves the chain alone.
pub proof fn lemma_settled_frame(s: StateV)
    ensures
        same_chain(s.settled_against_chain(), s),
        same_sync(s.settled_against_chain(), s),
{
    let missing = projection::cardless(s.proposals, s.summarized()) + projection::cardless(
        s.proposals,
        projection::decisions_sealed(s.blocks),
    );
    let open = projection::behind(s.proposals, s.summarized()) + projection::behind_ids(
        s.proposals,
        s.summarized_ids(),
    ) + projection::behind(s.proposals, projection::decisions_sealed(s.blocks));
    lemma_cards_made_frame(s, missing);
    lemma_cards_settled_frame(s.cards_made(missing), open);
    lemma_memberships_frame(s.cards_made(missing).cards_settled(open), s.blocks);
}

/// Projecting the chain anew leaves the chain alone; only the roster follows
/// the head.
pub proof fn lemma_chain_applied_frame(s: StateV)
    ensures
        s.chain_applied().head == s.head,
        s.chain_applied().blocks == s.blocks,
        s.chain_applied().walk == s.walk,
        s.chain_applied().checkpoint_blob == s.checkpoint_blob,
        s.chain_applied().next_id == s.next_id,
        s.chain_applied().stored == s.stored,
        s.chain_applied().pending_blocks == s.pending_blocks,
        s.chain_applied().fork_candidates == s.fork_candidates,
        s.chain_applied().own_approvals == s.own_approvals,
        s.chain_applied().applied == s.projected_groups(),
        s.chain_applied().applied_sigs == projection::applied_sigs_through(s.blocks),
        same_sync(s.chain_applied(), s),
{
    let applied = StateV {
        applied: s.projected_groups(),
        applied_sigs: projection::applied_sigs_through(s.blocks),
        ..s
    };
    lemma_settled_frame(applied.doing(EffectV::AppliedReset));
}

/// What a block settles leaves the head alone.
pub proof fn lemma_block_settled_head(s: StateV, block: BlockV)
    ensures
        s.block_settled(block).head == s.head,
        same_sync(s.block_settled(block), s),
{
    match block.change {
        ChangeV::Membership { .. } => {
            lemma_membership_frame(s, block.change);
        },
        ChangeV::Checkpoint { upto, .. } => {
            let ids = governance::ids_naming(s.proposal_changes, block.change);
            lemma_forgetting_frame(s, ids);
            let forgot = s.forgetting_each(ids);
            if forgot.own_summary(upto) is Ok {
                let cut = forgot.anchored_on(Some(forgot.own_summary(upto)->Ok_0));
                lemma_chain_applied_frame(
                    StateV { blocks: blocks_from(cut.blocks, block.height), ..cut },
                );
            }
        },
        _ => {},
    }
}

/// Dropping stale cuts leaves the chain alone.
pub proof fn lemma_sweeping_frame(s: StateV, ids: Seq<u64>)
    ensures
        same_chain(s.sweeping(ids), s),
        same_sync(s.sweeping(ids), s),
    decreases ids.len(),
{
    if ids.len() > 0 {
        lemma_sweeping_frame(s, ids.drop_last());
    }
}

/// Signing never lowers the head.
pub proof fn lemma_signing_rises(s: StateV, id: u64)
    ensures
        s.signing(id).height() >= s.height(),
        same_sync(s.signing(id), s),
    decreases s.room(), 2nat, 0nat,
{
    if s.can_sign(id) {
        lemma_committing_rises(s.voicing(id), id);
    }
}

/// Committing never lowers the head.
pub proof fn lemma_committing_rises(s: StateV, id: u64)
    ensures
        s.committing(id).height() >= s.height(),
        same_sync(s.committing(id), s),
    decreases s.room(), 1nat, 0nat,
{
    match s.sealable(id) {
        Some(block) => {
            lemma_sealing_rises(s, block, id);
        },
        None => {},
    }
}

/// A block that is refused leaves the head; one that is accepted raises it to
/// its height at least.
pub proof fn lemma_sealing_rises(s: StateV, block: BlockV, id: u64)
    ensures
        s.accepts(block) ==> s.sealing(block, id).height() >= block.height,
        !s.accepts(block) ==> s.sealing(block, id).head == s.head,
        same_sync(s.sealing(block, id), s),
    decreases (u64::MAX - block.height) as nat, 6nat, 0nat,
{
    if s.accepts(block) {
        lemma_appended_head(s, block);
        let appended = s.appending(block).persisting();
        lemma_after_applied_rises(appended, block);
        let settled = appended.after_applied(block).forgetting(id);
        let noted = settled.announced(block, id);
        if noted.height() >= block.height {
            lemma_auto_checkpointing_rises(noted);
        }
    }
}

/// What an applied block brings never lowers the head.
pub proof fn lemma_after_applied_rises(s: StateV, block: BlockV)
    ensures
        s.after_applied(block).height() >= s.height(),
        same_sync(s.after_applied(block), s),
    decreases s.room(), 5nat, 0nat,
{
    lemma_block_settled_head(s, block);
    lemma_rebasing_rises(s.block_settled(block));
}

/// Moving the votes never lowers the head.
pub proof fn lemma_rebasing_rises(s: StateV)
    ensures
        s.rebasing().height() >= s.height(),
        same_sync(s.rebasing(), s),
    decreases s.room(), 4nat, 0nat,
{
    match s.target() {
        None => {},
        Some(target) => {
            let going = StateV { votes_wait: false, ..s };
            let cuts = stale_cuts(s.proposal_changes, s.height());
            lemma_sweeping_frame(going, cuts);
            lemma_resigning_rises(going.sweeping(cuts), ids_below(s.pending_sigs, target));
        },
    }
}

/// Signing again never lowers the head.
pub proof fn lemma_resigning_rises(s: StateV, ids: Seq<u64>)
    ensures
        s.resigning(ids).height() >= s.height(),
        same_sync(s.resigning(ids), s),
    decreases s.room(), 3nat, ids.len(),
{
    if ids.len() > 0 && !s.vote_waits(ids[0]) {
        let cleared = StateV { pending_sigs: table::del(s.pending_sigs, ids[0]), ..s };
        lemma_signing_rises(cleared, ids[0]);
        let signed = if s.own_approvals.contains(ids[0]) && s.card_state(ids[0]) == Some(
            ProposalState::Proposed,
        ) {
            cleared.signing(ids[0])
        } else {
            cleared
        };
        lemma_resigning_rises(signed, ids.skip(1));
    }
}

/// Proposing a cut never lowers the head.
pub proof fn lemma_auto_checkpointing_rises(s: StateV)
    ensures
        s.auto_checkpointing().height() >= s.height(),
        same_sync(s.auto_checkpointing(), s),
    decreases s.room(), 4nat, 0nat,
{
    if s.owes_checkpoint() {
        lemma_proposing_checkpoint_rises(s);
    }
}

/// Proposing a cut never lowers the head.
pub proof fn lemma_proposing_checkpoint_rises(s: StateV)
    ensures
        s.proposing_checkpoint().height() >= s.height(),
        same_sync(s.proposing_checkpoint(), s),
    decreases s.room(), 3nat, 0nat,
{
    if s.checkpoint_outcome() is Ok && s.self_cosign {
        lemma_signing_rises(s.checkpoint_announced(), s.next_id);
    }
}

/// Is some card open?
fn any_open(cards: &Table<ProposalRecord>) -> (r: bool)
    ensures
        r == some_open(cards.deep_view()),
{
    let ghost all = cards.deep_view();
    let rows = cards.rows();
    let mut i: usize = 0;
    while i < rows.len()
        invariant
            i <= rows.len(),
            all == cards.deep_view(),
            all == rows.deep_view(),
            forall|k: int| 0 <= k < i ==> (#[trigger] all[k]).1.state != ProposalState::Proposed,
        decreases rows.len() - i,
    {
        assert(all[i as int] == rows@[i as int].deep_view());
        if rows[i].value.state == ProposalState::Proposed {
            return true;
        }
        i = i + 1;
    }
    false
}

/// Is some cut registered?
fn any_cut(changes: &Table<ChainChange>) -> (r: bool)
    ensures
        r == some_cut(changes.deep_view()),
{
    let ghost all = changes.deep_view();
    let rows = changes.rows();
    let mut i: usize = 0;
    while i < rows.len()
        invariant
            i <= rows.len(),
            all == changes.deep_view(),
            all == rows.deep_view(),
            forall|k: int| 0 <= k < i ==> !((#[trigger] all[k]).1 is Checkpoint),
        decreases rows.len() - i,
    {
        assert(all[i as int] == rows@[i as int].deep_view());
        match rows[i].value {
            ChainChange::Checkpoint { .. } => {
                return true;
            },
            _ => {},
        }
        i = i + 1;
    }
    false
}

impl State {
    /// Verifies a block as the extension of the own chain, appends it and
    /// projects it. Returns whether it was accepted. It is not handed to the
    /// storage here: that is done once for a whole batch.
    pub fn append_committed_block(&mut self, block: ChainBlock) -> (r: bool)
        ensures
            final(self).deep_view() == old(self).deep_view().appending(block.deep_view()),
            r == old(self).deep_view().accepts(block.deep_view()),
    {
        match self.extend_own(&block) {
            Ok(head) => {
                self.head = Some(head);
                self.project_one(&block);
                let ghost held = self.blocks.deep_view();
                let ghost b = block.deep_view();
                self.blocks.push(block);
                assert(self.blocks.deep_view() =~= held.push(b));
                self.bump_next_id_past_chain();
                true
            },
            Err(_) => false,
        }
    }

    /// Anchors the chain on its own summary at `upto` and drops the blocks
    /// below `height`.
    fn prune_to(&mut self, upto: u64, height: u64)
        ensures
            final(self).deep_view() == old(self).deep_view().pruned_to(upto, height),
    {
        match self.own_checkpoint_state(upto) {
            Ok(blob) => {
                self.set_checkpoint_blob(Some(blob));
                self.blocks = keep_from(&self.blocks, height);
                self.apply_chain_to_state();
                self.persist_chain_now();
                self.emit(Event::CheckpointSealed { height, upto });
            },
            Err(_) => {},
        }
    }

    /// Settles an applied change on this holder.
    pub fn settle_block(&mut self, block: &ChainBlock)
        ensures
            final(self).deep_view() == old(self).deep_view().block_settled(block.deep_view()),
    {
        match &block.change {
            ChainChange::Applied { proposal_id, surface, payload } => {
                self.ensure_applied_record(*proposal_id, *surface, payload.clone());
                self.apply_card(*proposal_id);
                self.stash_voted(*proposal_id);
                self.pending_sigs.remove(*proposal_id);
                self.emit(Event::Applied { id: *proposal_id, surface: *surface });
                if *surface == Surface::Organization {
                    self.doing(Effect::OrgApplied);
                }
            },
            ChainChange::Membership { op, member, .. } => {
                self.settle_membership_records(&block.change);
                if *op == MembershipOp::Restored {
                    self.announce_cooldown = drop_name(&self.announce_cooldown, member.as_str());
                    match self.recover_complete_report(block) {
                        Some(report) => {
                            self.doing(Effect::RecoverProgress { report });
                        },
                        None => {},
                    }
                    self.coordinator_rekey(member.as_str());
                }
            },
            ChainChange::Checkpoint { upto, .. } => {
                self.forget_votes_for(&block.change);
                self.prune_to(*upto, block.height);
            },
            ChainChange::Genesis { .. } => {},
        }
    }

    /// Signs this holder's approval of a proposal at the next height, sends
    /// it, and seals the block that it may complete.
    pub fn chain_sign_and_gossip_approval(&mut self, id: u64)
        ensures
            final(self).deep_view() == old(self).deep_view().signing(id),
        decreases old(self).deep_view().room(), 2nat, 0nat,
    {
        let height = match self.target_height() {
            Some(t) => t,
            None => {
                return;
            },
        };
        let change = match self.proposal_change(id) {
            Some(c) => c,
            None => {
                return;
            },
        };
        let rid = self.republic_id();
        let bytes = approval_bytes(rid.as_str(), height, &change);
        let sig = match &self.identity_sk {
            Some(sk) => identity_sign(sk, bytes.as_slice()),
            None => {
                return;
            },
        };
        let me = self.member();
        add_id(&mut self.own_approvals, id);
        self.collect_sig(id, height, me.as_str(), sig.as_str(), true);
        self.mark_verified(id, &me);
        self.record(WorkspaceEvent::Approved { id, by: me, height, sig });
        self.try_commit(id);
    }

    /// Seals a block for a proposal that has gathered the threshold.
    pub fn try_commit(&mut self, id: u64)
        ensures
            final(self).deep_view() == old(self).deep_view().committing(id),
        decreases old(self).deep_view().room(), 1nat, 0nat,
    {
        match self.sealable_block(id) {
            Some(block) => {
                self.adopt_committed_block(block, id);
            },
            None => {},
        }
    }

    /// Tells a sealed block to the members.
    fn announce(&mut self, block: ChainBlock, id: u64)
        ensures
            final(self).deep_view() == old(self).deep_view().announced(block.deep_view(), id),
    {
        let summary: Option<Payload> = match &block.change {
            ChainChange::Applied { payload, .. } => Some(payload.clone()),
            _ => None,
        };
        self.record(WorkspaceEvent::Committed { block });
        match summary {
            Some(payload) => {
                self.doing(Effect::DecisionSummary { id, payload });
            },
            None => {},
        }
    }

    /// Hears what came of writing the chain with a block sealed here: one that
    /// is durable is told to the members, any other is held back.
    pub fn sealed_block_written(&mut self, durable: bool, block: ChainBlock, proposal_id: u64)
        ensures
            final(self).deep_view() == old(self).deep_view().seal_written(
                durable,
                block.deep_view(),
                proposal_id,
            ),
    {
        if durable {
            self.announce(block, proposal_id);
            self.maybe_auto_checkpoint();
        }
    }

    /// Appends a block sealed here. It is told to the members once its write is
    /// known to hold; without a storage, at once, unless the host was asked about
    /// wiki patches.
    pub fn adopt_committed_block(&mut self, block: ChainBlock, proposal_id: u64)
        ensures
            final(self).deep_view() == old(self).deep_view().sealing(
                block.deep_view(),
                proposal_id,
            ),
        decreases (u64::MAX - block.height) as nat, 6nat, 0nat,
    {
        let ghost s = self.deep_view();
        let ghost b = block.deep_view();
        let copy = block.clone();
        if !self.append_committed_block(copy) {
            return;
        }
        proof {
            lemma_appended_head(s, b);
        }
        let stored = self.stored;
        self.persist_chain_now();
        proof {
            lemma_after_applied_rises(self.deep_view(), b);
        }
        self.after_block_applied(&block);
        self.forget_vote(proposal_id);
        if stored || self.wiki_asked > 0 {
            self.doing(Effect::Sealed { id: proposal_id, block });
            return;
        }
        self.announce(block, proposal_id);
        self.maybe_auto_checkpoint();
    }

    /// What an applied block brings, whoever sealed it.
    pub fn after_block_applied(&mut self, block: &ChainBlock)
        ensures
            final(self).deep_view() == old(self).deep_view().after_applied(block.deep_view()),
        decreases old(self).deep_view().room(), 5nat, 0nat,
    {
        proof {
            lemma_block_settled_head(self.deep_view(), block.deep_view());
        }
        self.settle_block(block);
        self.rebase_pending_approvals();
    }

    /// Moves the votes to the height above the head. Only what this holder
    /// itself decided is signed again, never what the wire put under its name.
    pub fn rebase_pending_approvals(&mut self)
        ensures
            final(self).deep_view() == old(self).deep_view().rebasing(),
        decreases old(self).deep_view().room(), 4nat, 0nat,
    {
        let target = match self.target_height() {
            Some(t) => t,
            None => {
                return;
            },
        };
        self.votes_wait = false;
        let ghost s = self.deep_view();
        let stale = find_below(&self.pending_sigs, target);
        let head_height: u64 = match &self.head {
            Some(h) => h.height,
            None => 0,
        };
        let swept = find_stale_cuts(&self.proposal_changes, head_height);
        let mut i: usize = 0;
        assert(swept@.take(0) =~= Seq::empty());
        while i < swept.len()
            invariant
                i <= swept.len(),
                s == (StateV { votes_wait: false, ..old(self).deep_view() }),
                self.deep_view() == s.sweeping(swept@.take(i as int)),
            decreases swept.len() - i,
        {
            assert(swept@.take(i + 1).drop_last() =~= swept@.take(i as int));
            self.proposal_changes.remove(swept[i]);
            self.pending_sigs.remove(swept[i]);
            self.emit(Event::CheckpointStale { id: swept[i] });
            i = i + 1;
        }
        assert(swept@.take(i as int) =~= swept@);
        proof {
            lemma_sweeping_frame(s, swept@);
        }
        let ghost start = self.deep_view();
        let mut j: usize = 0;
        assert(stale@.skip(0) =~= stale@);
        while j < stale.len()
            invariant
                j <= stale.len(),
                s == (StateV { votes_wait: false, ..old(self).deep_view() }),
                old(self).deep_view().target() is Some,
                old(self).deep_view().rebasing() == start.resigning(stale@),
                s.head is Some,
                start.height() == s.height(),
                self.deep_view().height() >= s.height(),
                start.resigning(stale@) == self.deep_view().resigning(stale@.skip(j as int)),
            decreases stale.len() - j,
        {
            let id: u64 = stale[j];
            proof {
                assert(stale@.skip(j as int)[0] == id);
                assert(stale@.skip(j as int).skip(1) =~= stale@.skip(j + 1));
            }
            if self.wiki_asked > 0 && is_open_patch(&self.proposals, id) {
                self.votes_wait = true;
                return;
            }
            let mine = has_id(&self.own_approvals, id);
            let open = match self.proposals.get(id) {
                Some(p) => p.state == ProposalState::Proposed,
                None => false,
            };
            self.pending_sigs.remove(id);
            if mine && open {
                proof {
                    lemma_signing_rises(self.deep_view(), id);
                }
                self.chain_sign_and_gossip_approval(id);
            }
            j = j + 1;
        }
        assert(stale@.skip(j as int) =~= Seq::empty());
    }

    /// Hears a peer's signed approval: collects it and seals the block that it
    /// may complete.
    pub fn receive_approval(&mut self, id: u64, by: &str, height: u64, sig: &str)
        ensures
            final(self).deep_view() == old(self).deep_view().approval_heard(
                id,
                height,
                (AttestationV { member: by@, sig: sig@ }),
            ),
    {
        if sig.is_empty() {
            return;
        }
        match self.target_height() {
            Some(t) => {
                if height > t {
                    return;
                }
            },
            None => {},
        }
        if !self.plausible_wire_id(id) {
            return;
        }
        let verified = self.approval_verifies(id, height, by, sig);
        self.collect_sig(id, height, by, sig, verified);
        if verified {
            let member = by.to_owned();
            self.mark_verified(id, &member);
        }
        self.try_commit(id);
    }

    /// Is it for this holder to propose the next cut now?
    fn owes_checkpoint(&self) -> (r: bool)
        ensures
            r == self.deep_view().owes_checkpoint(),
    {
        if self.blocks.len() < AUTO_CHECKPOINT_MIN_LEN || self.catchup_from.is_some() {
            return false;
        }
        let target = match self.target_height() {
            Some(t) => t,
            None => {
                return false;
            },
        };
        if self.pending_blocks.contains_key(target) {
            return false;
        }
        let me = self.member();
        let lowest = match &self.head {
            Some(h) => is_lowest(&h.identities, me.as_str()),
            None => false,
        };
        lowest && !(any_open(&self.proposals) || !self.pending_sigs.is_empty() || any_cut(
            &self.proposal_changes,
        ))
    }

    /// Proposes the next cut, where it is for this holder to do so. This runs
    /// right after a block was sealed here and nowhere else: a holder that is
    /// catching up would cut at a stale head.
    pub fn maybe_auto_checkpoint(&mut self)
        ensures
            final(self).deep_view() == old(self).deep_view().auto_checkpointing(),
        decreases old(self).deep_view().room(), 4nat, 0nat,
    {
        if self.owes_checkpoint() {
            let _ = self.cmd_propose_checkpoint();
        }
    }

    /// Proposes the compaction cut at the head. Every other holder recomputes
    /// the summary before it signs.
    pub fn cmd_propose_checkpoint(&mut self) -> (r: Result<u64, String>)
        ensures
            final(self).deep_view() == old(self).deep_view().proposing_checkpoint(),
            match r {
                Ok(id) => old(self).deep_view().checkpoint_outcome() == Ok::<u64, Seq<char>>(id),
                Err(e) => old(self).deep_view().checkpoint_outcome() == Err::<u64, Seq<char>>(e@),
            },
        decreases old(self).deep_view().room(), 3nat, 0nat,
    {
        let upto: u64 = match &self.head {
            Some(h) => h.height,
            None => {
                return Err("checkpoints need a chain-governed republic".to_owned());
            },
        };
        let summary = match self.own_checkpoint_state(upto) {
            Ok(s) => s,
            Err(e) => {
                return Err(e.text());
            },
        };
        let state_hash = checkpoint_state_hash(&summary);
        let id: u64 = self.next_id;
        self.next_id = next_after(self.next_id);
        self.proposal_changes.insert(
            id,
            ChainChange::Checkpoint { upto, state_hash: state_hash.clone() },
        );
        self.record(WorkspaceEvent::CheckpointProposed { id, upto, state_hash });
        if self.self_cosign {
            self.chain_sign_and_gossip_approval(id);
        }
        Ok(id)
    }
}

} // verus!
