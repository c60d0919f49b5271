//! A holder's state: its chain, what it folded from it, the votes in flight,
//! and the effects that the host still has to carry out.

use crate::fold;
use crate::identity::SigningKey;
use crate::model::{
    Anchor, AnchorV, AppliedGroup, AttestationV, BlockV, ChainBlock, ChainChange, ChangeV,
    CheckpointState, DeclarationV, GroupV, IdentityV, MemberIdentity, MembershipOp,
    RelayDeclaration, RosterAttestation, SummaryV, Surface,
};
use crate::payload::{Payload, PayloadV};
use crate::signers::{ChainHead, HeadV};
use crate::table;
use crate::table::Table;
use crate::walk::{ChainWalk, WalkV};
use vstd::prelude::*;
use vstd::string::*;

verus! {

/// Where a proposal stands.
#[derive(Debug, Clone, Copy, PartialEq, Eq, Structural)]
pub enum ProposalState {
    /// Open to votes.
    Proposed,
    /// Sealed by the chain.
    Applied,
    /// Declined, withdrawn or superseded.
    Rejected,
}

impl DeepView for ProposalState {
    type V = ProposalState;

    open spec fn deep_view(&self) -> ProposalState {
        *self
    }
}

/// A proposal's card.
#[derive(Debug, PartialEq, Eq)]
pub struct ProposalRecord {
    pub surface: Surface,
    pub payload: Payload,
    pub approvals: u32,
    pub state: ProposalState,
    pub declined_at: u64,
    pub declined_by: String,
    pub decliners: Vec<String>,
    /// Members whose voice reached this holder before the seal.
    pub voted: Vec<String>,
    /// The proposer; empty where the card was made from a block.
    pub by: String,
    pub superseded: bool,
    pub withdrawn: bool,
}

/// The model of [`ProposalRecord`].
pub struct RecordV {
    pub surface: Surface,
    pub payload: PayloadV,
    pub approvals: u32,
    pub state: ProposalState,
    pub declined_at: u64,
    pub declined_by: Seq<char>,
    pub decliners: Seq<Seq<char>>,
    pub voted: Seq<Seq<char>>,
    pub by: Seq<char>,
    pub superseded: bool,
    pub withdrawn: bool,
}

impl DeepView for ProposalRecord {
    type V = RecordV;

    open spec fn deep_view(&self) -> RecordV {
        RecordV {
            surface: self.surface,
            payload: self.payload.deep_view(),
            approvals: self.approvals,
            state: self.state,
            declined_at: self.declined_at,
            declined_by: self.declined_by@,
            decliners: self.decliners.deep_view(),
            voted: self.voted.deep_view(),
            by: self.by@,
            superseded: self.superseded,
            withdrawn: self.withdrawn,
        }
    }
}

impl Clone for ProposalRecord {
    fn clone(&self) -> (r: Self)
        ensures
            r.deep_view() == self.deep_view(),
    {
        ProposalRecord {
            surface: self.surface,
            payload: self.payload.clone(),
            approvals: self.approvals,
            state: self.state,
            declined_at: self.declined_at,
            declined_by: self.declined_by.clone(),
            decliners: self.decliners.clone(),
            voted: self.voted.clone(),
            by: self.by.clone(),
            superseded: self.superseded,
            withdrawn: self.withdrawn,
        }
    }
}

/// The signatures collected for one proposal, all bound to one height.
#[derive(Debug, PartialEq, Eq)]
pub struct PendingApproval {
    pub height: u64,
    /// At most one for each member.
    pub sigs: Vec<RosterAttestation>,
    /// Ascending: the members whose signature here verified.
    pub verified: Vec<String>,
}

/// The model of [`PendingApproval`].
pub struct PendingV {
    pub height: u64,
    pub sigs: Seq<AttestationV>,
    pub verified: Seq<Seq<char>>,
}

impl DeepView for PendingApproval {
    type V = PendingV;

    open spec fn deep_view(&self) -> PendingV {
        PendingV {
            height: self.height,
            sigs: self.sigs.deep_view(),
            verified: self.verified.deep_view(),
        }
    }
}

impl Clone for PendingApproval {
    fn clone(&self) -> (r: Self)
        ensures
            r.deep_view() == self.deep_view(),
    {
        PendingApproval {
            height: self.height,
            sigs: self.sigs.clone(),
            verified: self.verified.clone(),
        }
    }
}

/// A decline that arrived before its proposal.
#[derive(Debug, PartialEq, Eq)]
pub struct ParkedDecline {
    pub member: String,
    pub ts: u64,
    pub hash: String,
}

/// The model of [`ParkedDecline`].
pub struct ParkedV {
    pub member: Seq<char>,
    pub ts: u64,
    pub hash: Seq<char>,
}

impl DeepView for ParkedDecline {
    type V = ParkedV;

    open spec fn deep_view(&self) -> ParkedV {
        ParkedV {
            member: self.member@,
            ts: self.ts,
            hash: self.hash@,
        }
    }
}

impl Clone for ParkedDecline {
    fn clone(&self) -> (r: Self)
        ensures
            r.deep_view() == self.deep_view(),
    {
        ParkedDecline {
            member: self.member.clone(),
            ts: self.ts,
            hash: self.hash.clone(),
        }
    }
}

/// A block by its height and hash.
#[derive(Debug, PartialEq, Eq)]
pub struct HeightHash {
    pub height: u64,
    pub hash: String,
}

/// The model of [`HeightHash`].
pub struct HeightHashV {
    pub height: u64,
    pub hash: Seq<char>,
}

impl DeepView for HeightHash {
    type V = HeightHashV;

    open spec fn deep_view(&self) -> HeightHashV {
        HeightHashV {
            height: self.height,
            hash: self.hash@,
        }
    }
}

impl Clone for HeightHash {
    fn clone(&self) -> (r: Self)
        ensures
            r.deep_view() == self.deep_view(),
    {
        HeightHash {
            height: self.height,
            hash: self.hash.clone(),
        }
    }
}

/// What this holder knows of its republic.
#[derive(Debug, PartialEq, Eq)]
pub struct ReplicaState {
    pub name: String,
    /// This holder's own name.
    pub member: String,
    pub roster: Vec<String>,
    pub rule_m: u8,
    pub identities: Vec<MemberIdentity>,
    pub agenda: String,
    pub features: Option<Vec<String>>,
    pub republic_id: String,
    pub founded_ts: u64,
}

/// The model of [`ReplicaState`].
pub struct ReplicaV {
    pub name: Seq<char>,
    pub member: Seq<char>,
    pub roster: Seq<Seq<char>>,
    pub rule_m: u8,
    pub identities: Seq<IdentityV>,
    pub agenda: Seq<char>,
    pub features: Option<Seq<Seq<char>>>,
    pub republic_id: Seq<char>,
    pub founded_ts: u64,
}

impl DeepView for ReplicaState {
    type V = ReplicaV;

    open spec fn deep_view(&self) -> ReplicaV {
        ReplicaV {
            name: self.name@,
            member: self.member@,
            roster: self.roster.deep_view(),
            rule_m: self.rule_m,
            identities: self.identities.deep_view(),
            agenda: self.agenda@,
            features: self.features.deep_view(),
            republic_id: self.republic_id@,
            founded_ts: self.founded_ts,
        }
    }
}

impl Clone for ReplicaState {
    fn clone(&self) -> (r: Self)
        ensures
            r.deep_view() == self.deep_view(),
    {
        ReplicaState {
            name: self.name.clone(),
            member: self.member.clone(),
            roster: self.roster.clone(),
            rule_m: self.rule_m,
            identities: self.identities.clone(),
            agenda: self.agenda.clone(),
            features: self.features.clone(),
            republic_id: self.republic_id.clone(),
            founded_ts: self.founded_ts,
        }
    }
}

/// Two seats that share no relay.
#[derive(Debug, PartialEq, Eq)]
pub struct SplitPair {
    pub a: String,
    pub b: String,
}

/// The model of [`SplitPair`].
pub struct SplitV {
    pub a: Seq<char>,
    pub b: Seq<char>,
}

impl DeepView for SplitPair {
    type V = SplitV;

    open spec fn deep_view(&self) -> SplitV {
        SplitV {
            a: self.a@,
            b: self.b@,
        }
    }
}

impl Clone for SplitPair {
    fn clone(&self) -> (r: Self)
        ensures
            r.deep_view() == self.deep_view(),
    {
        SplitPair {
            a: self.a.clone(),
            b: self.b.clone(),
        }
    }
}

/// A peer on another branch.
#[derive(Debug, PartialEq, Eq)]
pub struct ChainDivergence {
    pub peer: String,
    /// The lowest height the two chains may still share.
    pub since_height: u64,
    pub seen_ts: u64,
}

/// The model of [`ChainDivergence`].
pub struct DivergenceV {
    pub peer: Seq<char>,
    pub since_height: u64,
    pub seen_ts: u64,
}

impl DeepView for ChainDivergence {
    type V = DivergenceV;

    open spec fn deep_view(&self) -> DivergenceV {
        DivergenceV {
            peer: self.peer@,
            since_height: self.since_height,
            seen_ts: self.seen_ts,
        }
    }
}

impl Clone for ChainDivergence {
    fn clone(&self) -> (r: Self)
        ensures
            r.deep_view() == self.deep_view(),
    {
        ChainDivergence {
            peer: self.peer.clone(),
            since_height: self.since_height,
            seen_ts: self.seen_ts,
        }
    }
}

/// The highest height on record for a member.
#[derive(Debug, PartialEq, Eq)]
pub struct PeerHeight {
    pub member: String,
    pub height: u64,
}

/// The model of [`PeerHeight`].
pub struct PeerHeightV {
    pub member: Seq<char>,
    pub height: u64,
}

impl DeepView for PeerHeight {
    type V = PeerHeightV;

    open spec fn deep_view(&self) -> PeerHeightV {
        PeerHeightV {
            member: self.member@,
            height: self.height,
        }
    }
}

impl Clone for PeerHeight {
    fn clone(&self) -> (r: Self)
        ensures
            r.deep_view() == self.deep_view(),
    {
        PeerHeight {
            member: self.member.clone(),
            height: self.height,
        }
    }
}

/// A recovery that this holder coordinates: kept until its block commits.
#[derive(Debug, PartialEq, Eq)]
pub struct PendingRecovery {
    /// The returning seat.
    pub member: String,
    /// Whether the request came over a minted link.
    pub ticketed: bool,
    /// The fresh key package, in hex.
    pub key_package: String,
    /// Where the welcome goes.
    pub reply: String,
}

/// The model of [`PendingRecovery`].
pub struct RecoveryV {
    pub member: Seq<char>,
    pub ticketed: bool,
    pub key_package: Seq<char>,
    pub reply: Seq<char>,
}

impl DeepView for PendingRecovery {
    type V = RecoveryV;

    open spec fn deep_view(&self) -> RecoveryV {
        RecoveryV {
            member: self.member@,
            ticketed: self.ticketed,
            key_package: self.key_package@,
            reply: self.reply@,
        }
    }
}

impl Clone for PendingRecovery {
    fn clone(&self) -> (r: Self)
        ensures
            r.deep_view() == self.deep_view(),
    {
        PendingRecovery {
            member: self.member.clone(),
            ticketed: self.ticketed,
            key_package: self.key_package.clone(),
            reply: self.reply.clone(),
        }
    }
}

/// How far a re-admission vote has come, for the waiting member.
#[derive(Debug, PartialEq, Eq)]
pub struct RecoverProgressReport {
    /// The returning seat.
    pub member: String,
    /// Approvals needed.
    pub need: u32,
    /// In roster order.
    pub roster: Vec<String>,
    /// Ascending: the members whose voice counts.
    pub approved: Vec<String>,
    /// The returning member's new transport key.
    pub to: Option<String>,
}

/// The model of [`RecoverProgressReport`].
pub struct ProgressV {
    pub member: Seq<char>,
    pub need: u32,
    pub roster: Seq<Seq<char>>,
    pub approved: Seq<Seq<char>>,
    pub to: Option<Seq<char>>,
}

impl DeepView for RecoverProgressReport {
    type V = ProgressV;

    open spec fn deep_view(&self) -> ProgressV {
        ProgressV {
            member: self.member@,
            need: self.need,
            roster: self.roster.deep_view(),
            approved: self.approved.deep_view(),
            to: self.to.deep_view(),
        }
    }
}

impl Clone for RecoverProgressReport {
    fn clone(&self) -> (r: Self)
        ensures
            r.deep_view() == self.deep_view(),
    {
        RecoverProgressReport {
            member: self.member.clone(),
            need: self.need,
            roster: self.roster.clone(),
            approved: self.approved.clone(),
            to: self.to.clone(),
        }
    }
}

/// What a holder tells the other members.
#[derive(Debug, PartialEq, Eq)]
pub enum WorkspaceEvent {
    Proposed {
        id: u64,
        surface: Surface,
        payload: Payload,
    },
    Approved {
        id: u64,
        by: String,
        height: u64,
        sig: String,
    },
    Declined {
        id: u64,
        by: String,
        hash: String,
    },
    Withdrawn {
        id: u64,
        by: String,
    },
    Committed {
        block: ChainBlock,
    },
    ChainRequest {
        from_height: u64,
        known: Vec<HeightHash>,
    },
    CheckpointProposed {
        id: u64,
        upto: u64,
        state_hash: String,
    },
    CheckpointServed {
        blob: CheckpointState,
    },
    MembershipProposed {
        id: u64,
        op: MembershipOp,
        member: String,
        identity_pk: String,
        nostr_pk: Option<String>,
        relays: Vec<String>,
        consent: Option<String>,
    },
    /// The raw group re-key, in hex, and the stamp it is keyed at.
    MlsCommit {
        commit: String,
        stamp: u64,
    },
}

/// The model of [`WorkspaceEvent`].
pub enum WireV {
    Proposed {
        id: u64,
        surface: Surface,
        payload: PayloadV,
    },
    Approved {
        id: u64,
        by: Seq<char>,
        height: u64,
        sig: Seq<char>,
    },
    Declined {
        id: u64,
        by: Seq<char>,
        hash: Seq<char>,
    },
    Withdrawn {
        id: u64,
        by: Seq<char>,
    },
    Committed {
        block: BlockV,
    },
    ChainRequest {
        from_height: u64,
        known: Seq<HeightHashV>,
    },
    CheckpointProposed {
        id: u64,
        upto: u64,
        state_hash: Seq<char>,
    },
    CheckpointServed {
        blob: SummaryV,
    },
    MembershipProposed {
        id: u64,
        op: MembershipOp,
        member: Seq<char>,
        identity_pk: Seq<char>,
        nostr_pk: Option<Seq<char>>,
        relays: Seq<Seq<char>>,
        consent: Option<Seq<char>>,
    },
    MlsCommit {
        commit: Seq<char>,
        stamp: u64,
    },
}

impl DeepView for WorkspaceEvent {
    type V = WireV;

    open spec fn deep_view(&self) -> WireV {
        match *self {
            WorkspaceEvent::Proposed { id, surface, payload } => WireV::Proposed {
                id,
                surface,
                payload: payload.deep_view(),
            },
            WorkspaceEvent::Approved { id, by, height, sig } => WireV::Approved {
                id,
                by: by@,
                height,
                sig: sig@,
            },
            WorkspaceEvent::Declined { id, by, hash } => WireV::Declined {
                id,
                by: by@,
                hash: hash@,
            },
            WorkspaceEvent::Withdrawn { id, by } => WireV::Withdrawn {
                id,
                by: by@,
            },
            WorkspaceEvent::Committed { block } => WireV::Committed {
                block: block.deep_view(),
            },
            WorkspaceEvent::ChainRequest { from_height, known } => WireV::ChainRequest {
                from_height,
                known: known.deep_view(),
            },
            WorkspaceEvent::CheckpointProposed { id, upto, state_hash } => WireV::CheckpointProposed {
                id,
                upto,
                state_hash: state_hash@,
            },
            WorkspaceEvent::CheckpointServed { blob } => WireV::CheckpointServed {
                blob: blob.deep_view(),
            },
            WorkspaceEvent::MembershipProposed { id, op, member, identity_pk, nostr_pk, relays, consent } => WireV::MembershipProposed {
                id,
                op,
                member: member@,
                identity_pk: identity_pk@,
                nostr_pk: nostr_pk.deep_view(),
                relays: relays.deep_view(),
                consent: consent.deep_view(),
            },
            WorkspaceEvent::MlsCommit { commit, stamp } => WireV::MlsCommit {
                commit: commit@,
                stamp,
            },
        }
    }
}

impl Clone for WorkspaceEvent {
    fn clone(&self) -> (r: Self)
        ensures
            r.deep_view() == self.deep_view(),
    {
        match self {
            WorkspaceEvent::Proposed { id, surface, payload } => WorkspaceEvent::Proposed {
                id: *id,
                surface: *surface,
                payload: payload.clone(),
            },
            WorkspaceEvent::Approved { id, by, height, sig } => WorkspaceEvent::Approved {
                id: *id,
                by: by.clone(),
                height: *height,
                sig: sig.clone(),
            },
            WorkspaceEvent::Declined { id, by, hash } => WorkspaceEvent::Declined {
                id: *id,
                by: by.clone(),
                hash: hash.clone(),
            },
            WorkspaceEvent::Withdrawn { id, by } => WorkspaceEvent::Withdrawn {
                id: *id,
                by: by.clone(),
            },
            WorkspaceEvent::Committed { block } => WorkspaceEvent::Committed {
                block: block.clone(),
            },
            WorkspaceEvent::ChainRequest { from_height, known } => WorkspaceEvent::ChainRequest {
                from_height: *from_height,
                known: known.clone(),
            },
            WorkspaceEvent::CheckpointProposed { id, upto, state_hash } => WorkspaceEvent::CheckpointProposed {
                id: *id,
                upto: *upto,
                state_hash: state_hash.clone(),
            },
            WorkspaceEvent::CheckpointServed { blob } => WorkspaceEvent::CheckpointServed {
                blob: blob.clone(),
            },
            WorkspaceEvent::MembershipProposed { id, op, member, identity_pk, nostr_pk, relays, consent } => WorkspaceEvent::MembershipProposed {
                id: *id,
                op: *op,
                member: member.clone(),
                identity_pk: identity_pk.clone(),
                nostr_pk: nostr_pk.clone(),
                relays: relays.clone(),
                consent: consent.clone(),
            },
            WorkspaceEvent::MlsCommit { commit, stamp } => WorkspaceEvent::MlsCommit {
                commit: commit.clone(),
                stamp: *stamp,
            },
        }
    }
}

/// What a holder tells its own frontends.
#[derive(Debug, PartialEq, Eq)]
pub enum Event {
    Applied {
        id: u64,
        surface: Surface,
    },
    CheckpointSealed {
        height: u64,
        upto: u64,
    },
    CheckpointStale {
        id: u64,
    },
    SessionChanged,
}

/// The model of [`Event`].
pub enum EventV {
    Applied {
        id: u64,
        surface: Surface,
    },
    CheckpointSealed {
        height: u64,
        upto: u64,
    },
    CheckpointStale {
        id: u64,
    },
    SessionChanged,
}

impl DeepView for Event {
    type V = EventV;

    open spec fn deep_view(&self) -> EventV {
        match *self {
            Event::Applied { id, surface } => EventV::Applied {
                id,
                surface,
            },
            Event::CheckpointSealed { height, upto } => EventV::CheckpointSealed {
                height,
                upto,
            },
            Event::CheckpointStale { id } => EventV::CheckpointStale {
                id,
            },
            Event::SessionChanged => EventV::SessionChanged,
        }
    }
}

impl Clone for Event {
    fn clone(&self) -> (r: Self)
        ensures
            r.deep_view() == self.deep_view(),
    {
        match self {
            Event::Applied { id, surface } => Event::Applied {
                id: *id,
                surface: *surface,
            },
            Event::CheckpointSealed { height, upto } => Event::CheckpointSealed {
                height: *height,
                upto: *upto,
            },
            Event::CheckpointStale { id } => Event::CheckpointStale {
                id: *id,
            },
            Event::SessionChanged => Event::SessionChanged,
        }
    }
}

/// What the host has to do, in this order.
#[derive(Debug, PartialEq, Eq)]
pub enum Effect {
    /// Record an event and send it to the members.
    Send {
        body: WorkspaceEvent,
    },
    /// Tell the frontends.
    Emit {
        event: Event,
    },
    /// The organization changed: refresh what shows it.
    OrgApplied,
    /// The wiki base moved: say which of these open patches it left behind.
    /// Where one appended entry moved it, that entry is named.
    WikiMoved {
        by: Option<Payload>,
        open: Vec<u64>,
    },
    /// What was applied is projected anew and may have lost entries: caches of
    /// it are stale.
    AppliedReset,
    /// Write the chain: its summary and its blocks.
    PersistChain {
        blob: Option<CheckpointState>,
        blocks: Vec<ChainBlock>,
    },
    /// A block was sealed here for a proposal: say what came of writing the chain
    /// that ends in it.
    Sealed {
        id: u64,
        block: ChainBlock,
    },
    /// The governed relay pool moved: rebuild the transport on it.
    PoolMoved {
        relays: Vec<String>,
    },
    /// A vote was sealed here: post its summary into its discussion.
    DecisionSummary {
        id: u64,
        payload: Payload,
    },
    /// Report to the returning member.
    RecoverProgress {
        report: RecoverProgressReport,
    },
    /// Re-key the group for a returning member and send its welcome.
    Rekey {
        member: String,
        ticketed: bool,
        key_package: Vec<u8>,
        reply: String,
    },
    /// Post a quiet line into the group chat.
    RejoinNote {
        line: String,
    },
    /// Accept the returning member's next mesh announcement.
    AcceptAnnounce {
        member: String,
    },
    /// Forget the returning member's old message numbers.
    ResetAcceptWindow {
        member: String,
    },
}

/// The model of [`Effect`].
pub enum EffectV {
    Send {
        body: WireV,
    },
    Emit {
        event: EventV,
    },
    OrgApplied,
    WikiMoved {
        by: Option<PayloadV>,
        open: Seq<u64>,
    },
    AppliedReset,
    PersistChain {
        blob: Option<SummaryV>,
        blocks: Seq<BlockV>,
    },
    Sealed {
        id: u64,
        block: BlockV,
    },
    PoolMoved {
        relays: Seq<Seq<char>>,
    },
    DecisionSummary {
        id: u64,
        payload: PayloadV,
    },
    RecoverProgress {
        report: ProgressV,
    },
    Rekey {
        member: Seq<char>,
        ticketed: bool,
        key_package: Seq<u8>,
        reply: Seq<char>,
    },
    RejoinNote {
        line: Seq<char>,
    },
    AcceptAnnounce {
        member: Seq<char>,
    },
    ResetAcceptWindow {
        member: Seq<char>,
    },
}

impl DeepView for Effect {
    type V = EffectV;

    open spec fn deep_view(&self) -> EffectV {
        match *self {
            Effect::Send { body } => EffectV::Send {
                body: body.deep_view(),
            },
            Effect::Emit { event } => EffectV::Emit {
                event: event.deep_view(),
            },
            Effect::OrgApplied => EffectV::OrgApplied,
            Effect::WikiMoved { by, open } => EffectV::WikiMoved {
                by: by.deep_view(),
                open: open.deep_view(),
            },
            Effect::AppliedReset => EffectV::AppliedReset,
            Effect::PersistChain { blob, blocks } => EffectV::PersistChain {
                blob: blob.deep_view(),
                blocks: blocks.deep_view(),
            },
            Effect::Sealed { id, block } => EffectV::Sealed {
                id,
                block: block.deep_view(),
            },
            Effect::PoolMoved { relays } => EffectV::PoolMoved {
                relays: relays.deep_view(),
            },
            Effect::DecisionSummary { id, payload } => EffectV::DecisionSummary {
                id,
                payload: payload.deep_view(),
            },
            Effect::RecoverProgress { report } => EffectV::RecoverProgress {
                report: report.deep_view(),
            },
            Effect::Rekey { member, ticketed, key_package, reply } => EffectV::Rekey {
                member: member@,
                ticketed,
                key_package: key_package.deep_view(),
                reply: reply@,
            },
            Effect::RejoinNote { line } => EffectV::RejoinNote {
                line: line@,
            },
            Effect::AcceptAnnounce { member } => EffectV::AcceptAnnounce {
                member: member@,
            },
            Effect::ResetAcceptWindow { member } => EffectV::ResetAcceptWindow {
                member: member@,
            },
        }
    }
}

impl Clone for Effect {
    fn clone(&self) -> (r: Self)
        ensures
            r.deep_view() == self.deep_view(),
    {
        match self {
            Effect::Send { body } => Effect::Send {
                body: body.clone(),
            },
            Effect::Emit { event } => Effect::Emit {
                event: event.clone(),
            },
            Effect::OrgApplied => Effect::OrgApplied,
            Effect::WikiMoved { by, open } => Effect::WikiMoved {
                by: by.clone(),
                open: open.clone(),
            },
            Effect::AppliedReset => Effect::AppliedReset,
            Effect::PersistChain { blob, blocks } => Effect::PersistChain {
                blob: blob.clone(),
                blocks: blocks.clone(),
            },
            Effect::Sealed { id, block } => Effect::Sealed {
                id: *id,
                block: block.clone(),
            },
            Effect::PoolMoved { relays } => Effect::PoolMoved {
                relays: relays.clone(),
            },
            Effect::DecisionSummary { id, payload } => Effect::DecisionSummary {
                id: *id,
                payload: payload.clone(),
            },
            Effect::RecoverProgress { report } => Effect::RecoverProgress {
                report: report.clone(),
            },
            Effect::Rekey { member, ticketed, key_package, reply } => Effect::Rekey {
                member: member.clone(),
                ticketed: *ticketed,
                key_package: key_package.clone(),
                reply: reply.clone(),
            },
            Effect::RejoinNote { line } => Effect::RejoinNote {
                line: line.clone(),
            },
            Effect::AcceptAnnounce { member } => Effect::AcceptAnnounce {
                member: member.clone(),
            },
            Effect::ResetAcceptWindow { member } => Effect::ResetAcceptWindow {
                member: member.clone(),
            },
        }
    }
}

/// A holder's state.
#[derive(Debug)]
pub struct State {
    pub replica: Option<ReplicaState>,
    /// This holder's signing key, where it has one.
    pub identity_sk: Option<SigningKey>,
    /// Whether a proposer signs its own proposal.
    pub self_cosign: bool,
    /// The chain: from its founding, or from a checkpoint block on.
    pub blocks: Vec<ChainBlock>,
    /// The verified head.
    pub head: Option<ChainHead>,
    /// The walk that verified the chain, kept for the next block.
    pub walk: Option<ChainWalk>,
    /// The summary that a pruned chain is anchored on.
    pub checkpoint_blob: Option<CheckpointState>,
    /// A served summary that waits for its anchor block.
    pub pending_served_blob: Option<CheckpointState>,
    pub proposals: Table<ProposalRecord>,
    /// The changes of proposals that are no surface proposals.
    pub proposal_changes: Table<ChainChange>,
    pub pending_sigs: Table<PendingApproval>,
    /// The proposals that this holder itself decided to approve, ascending.
    pub own_approvals: Vec<u64>,
    /// Blocks ahead of the head, by height.
    pub pending_blocks: Table<ChainBlock>,
    /// Blocks of another branch, by height.
    pub fork_candidates: Table<ChainBlock>,
    /// The height from which blocks were asked for.
    pub catchup_from: Option<u64>,
    /// What the chain applied, by surface.
    pub applied: Vec<AppliedGroup>,
    /// The signatures of the applied blocks still held.
    pub applied_sigs: Table<Vec<RosterAttestation>>,
    pub anchors: Vec<Anchor>,
    pub member_relays: Vec<RelayDeclaration>,
    pub split_noted: Vec<SplitPair>,
    pub diverged: Vec<ChainDivergence>,
    pub peer_heights: Vec<PeerHeight>,
    pub seen_signing: Vec<PeerHeight>,
    pub head_moved_at: u64,
    pub pending_declines: Table<Vec<ParkedDecline>>,
    /// At most one for each member.
    pub pending_recovery: Vec<PendingRecovery>,
    /// Members whose announcements are held back for now.
    pub announce_cooldown: Vec<String>,
    /// The relays of the running transport, where there is one.
    pub live_relays: Option<Vec<String>>,
    /// The next proposal id to mint.
    pub next_id: u64,
    /// The number of the next recorded event.
    pub next_seq: u64,
    /// The time, in seconds; the host keeps it.
    pub now: u64,
    /// What ended before this time is shown no more.
    pub retention_cutoff: u64,
    /// Whether there is a storage. Without one nothing was promised, so there
    /// is no write to wait for.
    pub stored: bool,
    /// How many times the host was asked which open patches a moved wiki base
    /// left behind, and has not answered yet.
    pub wiki_asked: u64,
    /// Whether votes on wiki patches wait for that answer to be moved.
    pub votes_wait: bool,
    /// Whether the own decisions wait for that answer to be signed anew.
    pub resign_waits: bool,
    /// Whether held blocks wait for the votes to be moved.
    pub drain_waits: bool,
    /// The session's notice line.
    pub notice: String,
    /// What the host still has to do.
    pub effects: Vec<Effect>,
}

/// The model of [`State`].
pub struct StateV {
    pub replica: Option<ReplicaV>,
    pub identity_sk: Option<Seq<u8>>,
    pub self_cosign: bool,
    pub blocks: Seq<BlockV>,
    pub head: Option<HeadV>,
    pub walk: Option<WalkV>,
    pub checkpoint_blob: Option<SummaryV>,
    pub pending_served_blob: Option<SummaryV>,
    pub proposals: Seq<(u64, RecordV)>,
    pub proposal_changes: Seq<(u64, ChangeV)>,
    pub pending_sigs: Seq<(u64, PendingV)>,
    pub own_approvals: Seq<u64>,
    pub pending_blocks: Seq<(u64, BlockV)>,
    pub fork_candidates: Seq<(u64, BlockV)>,
    pub catchup_from: Option<u64>,
    pub applied: Seq<GroupV>,
    pub applied_sigs: Seq<(u64, Seq<AttestationV>)>,
    pub anchors: Seq<AnchorV>,
    pub member_relays: Seq<DeclarationV>,
    pub split_noted: Seq<SplitV>,
    pub diverged: Seq<DivergenceV>,
    pub peer_heights: Seq<PeerHeightV>,
    pub seen_signing: Seq<PeerHeightV>,
    pub head_moved_at: u64,
    pub pending_declines: Seq<(u64, Seq<ParkedV>)>,
    pub pending_recovery: Seq<RecoveryV>,
    pub announce_cooldown: Seq<Seq<char>>,
    pub live_relays: Option<Seq<Seq<char>>>,
    pub next_id: u64,
    pub next_seq: u64,
    pub now: u64,
    pub retention_cutoff: u64,
    pub stored: bool,
    pub wiki_asked: u64,
    pub votes_wait: bool,
    pub resign_waits: bool,
    pub drain_waits: bool,
    pub notice: Seq<char>,
    pub effects: Seq<EffectV>,
}

impl DeepView for State {
    type V = StateV;

    open spec fn deep_view(&self) -> StateV {
        StateV {
            replica: self.replica.deep_view(),
            identity_sk: self.identity_sk.deep_view(),
            self_cosign: self.self_cosign,
            blocks: self.blocks.deep_view(),
            head: self.head.deep_view(),
            walk: self.walk.deep_view(),
            checkpoint_blob: self.checkpoint_blob.deep_view(),
            pending_served_blob: self.pending_served_blob.deep_view(),
            proposals: self.proposals.deep_view(),
            proposal_changes: self.proposal_changes.deep_view(),
            pending_sigs: self.pending_sigs.deep_view(),
            own_approvals: self.own_approvals.deep_view(),
            pending_blocks: self.pending_blocks.deep_view(),
            fork_candidates: self.fork_candidates.deep_view(),
            catchup_from: self.catchup_from.deep_view(),
            applied: self.applied.deep_view(),
            applied_sigs: self.applied_sigs.deep_view(),
            anchors: self.anchors.deep_view(),
            member_relays: self.member_relays.deep_view(),
            split_noted: self.split_noted.deep_view(),
            diverged: self.diverged.deep_view(),
            peer_heights: self.peer_heights.deep_view(),
            seen_signing: self.seen_signing.deep_view(),
            head_moved_at: self.head_moved_at,
            pending_declines: self.pending_declines.deep_view(),
            pending_recovery: self.pending_recovery.deep_view(),
            announce_cooldown: self.announce_cooldown.deep_view(),
            live_relays: self.live_relays.deep_view(),
            next_id: self.next_id,
            next_seq: self.next_seq,
            now: self.now,
            retention_cutoff: self.retention_cutoff,
            stored: self.stored,
            wiki_asked: self.wiki_asked,
            votes_wait: self.votes_wait,
            resign_waits: self.resign_waits,
            drain_waits: self.drain_waits,
            notice: self.notice@,
            effects: self.effects.deep_view(),
        }
    }
}

/// The number after `n`; the largest number has none.
pub open spec fn after(n: u64) -> u64 {
    if n < u64::MAX {
        (n + 1) as u64
    } else {
        n
    }
}

/// The number after `n`; the largest number has none.
pub fn next_after(n: u64) -> (r: u64)
    ensures
        r == after(n),
{
    if n < u64::MAX {
        n + 1
    } else {
        n
    }
}

/// Is something of that time not shown any more? What has no known time is.
pub open spec fn aged_out(cutoff: u64, at: u64) -> bool {
    at != 0 && at < cutoff
}

/// Is something of that time not shown any more?
pub fn aged_out_at(cutoff: u64, at: u64) -> (r: bool)
    ensures
        r == aged_out(cutoff, at),
{
    at != 0 && at < cutoff
}

/// The larger of two numbers.
pub open spec fn larger(a: u64, b: u64) -> u64 {
    if a >= b {
        a
    } else {
        b
    }
}

/// The ids with one more, ascending, once.
pub open spec fn with_id(ids: Seq<u64>, id: u64) -> Seq<u64> {
    if ids.contains(id) {
        ids
    } else {
        fold::insert_id(ids, id)
    }
}

/// Is `id` among the ids?
pub fn has_id(ids: &Vec<u64>, id: u64) -> (r: bool)
    ensures
        r == ids.deep_view().contains(id),
{
    proof {
        fold::lemma_ids_view(*ids);
    }
    let mut i: usize = 0;
    while i < ids.len()
        invariant
            i <= ids.len(),
            forall|k: int| 0 <= k < i ==> ids@[k] != id,
            ids.deep_view() == ids@,
        decreases ids.len() - i,
    {
        if ids[i] == id {
            return true;
        }
        i = i + 1;
    }
    false
}

/// Adds `id`, once.
pub fn add_id(ids: &mut Vec<u64>, id: u64)
    ensures
        final(ids).deep_view() == with_id(old(ids).deep_view(), id),
{
    proof {
        fold::lemma_ids_view(*ids);
    }
    if !has_id(ids, id) {
        fold::place_id(ids, id);
        proof {
            fold::lemma_ids_view(*ids);
        }
    }
}

impl StateV {
    /// A holder that knows nothing yet. Proposals and events are counted from
    /// one, and a proposer signs its own proposal.
    pub open spec fn fresh() -> StateV {
        StateV {
            replica: None,
            identity_sk: None,
            self_cosign: true,
            blocks: Seq::empty(),
            head: None,
            walk: None,
            checkpoint_blob: None,
            pending_served_blob: None,
            proposals: Seq::empty(),
            proposal_changes: Seq::empty(),
            pending_sigs: Seq::empty(),
            own_approvals: Seq::empty(),
            pending_blocks: Seq::empty(),
            fork_candidates: Seq::empty(),
            catchup_from: None,
            applied: Seq::empty(),
            applied_sigs: Seq::empty(),
            anchors: Seq::empty(),
            member_relays: Seq::empty(),
            split_noted: Seq::empty(),
            diverged: Seq::empty(),
            peer_heights: Seq::empty(),
            seen_signing: Seq::empty(),
            head_moved_at: 0,
            pending_declines: Seq::empty(),
            pending_recovery: Seq::empty(),
            announce_cooldown: Seq::empty(),
            live_relays: None,
            next_id: 1,
            next_seq: 1,
            now: 0,
            retention_cutoff: 0,
            stored: false,
            wiki_asked: 0,
            votes_wait: false,
            resign_waits: false,
            drain_waits: false,
            notice: Seq::empty(),
            effects: Seq::empty(),
        }
    }

    /// This holder's own name.
    pub open spec fn me(self) -> Seq<char> {
        match self.replica {
            Some(r) => r.member,
            None => Seq::empty(),
        }
    }

    /// The republic's id.
    pub open spec fn rid(self) -> Seq<char> {
        match self.replica {
            Some(r) => r.republic_id,
            None => Seq::empty(),
        }
    }

    /// The roster's names.
    pub open spec fn roster(self) -> Seq<Seq<char>> {
        match self.replica {
            Some(r) => r.roster,
            None => Seq::empty(),
        }
    }

    /// One more thing for the host to do.
    pub open spec fn doing(self, effect: EffectV) -> StateV {
        StateV { effects: self.effects.push(effect), ..self }
    }

    /// One more thing to tell the frontends.
    pub open spec fn emitting(self, event: EventV) -> StateV {
        self.doing(EffectV::Emit { event })
    }

    /// One more event recorded and sent.
    pub open spec fn recording(self, body: WireV) -> StateV {
        StateV {
            effects: self.effects.push(EffectV::Send { body }),
            next_seq: after(self.next_seq),
            ..self
        }
    }

    /// The chain handed to the storage: its summary and its blocks, as they
    /// stand.
    pub open spec fn persisting(self) -> StateV {
        self.doing(
            EffectV::PersistChain { blob: self.checkpoint_blob, blocks: self.blocks },
        )
    }

    /// The height of the head.
    pub open spec fn height(self) -> u64 {
        match self.head {
            Some(h) => h.height,
            None => 0,
        }
    }

    /// Where the proposal of that id stands, if there is one.
    pub open spec fn card_state(self, id: u64) -> Option<ProposalState> {
        match table::get(self.proposals, id) {
            Some(p) => Some(p.state),
            None => None,
        }
    }
}

impl State {
    /// A holder that knows nothing yet.
    pub fn new() -> (r: State)
        ensures
            r.deep_view() == StateV::fresh(),
    {
        let r = State {
            replica: None,
            identity_sk: None,
            self_cosign: true,
            blocks: Vec::new(),
            head: None,
            walk: None,
            checkpoint_blob: None,
            pending_served_blob: None,
            proposals: Table::new(),
            proposal_changes: Table::new(),
            pending_sigs: Table::new(),
            own_approvals: Vec::new(),
            pending_blocks: Table::new(),
            fork_candidates: Table::new(),
            catchup_from: None,
            applied: Vec::new(),
            applied_sigs: Table::new(),
            anchors: Vec::new(),
            member_relays: Vec::new(),
            split_noted: Vec::new(),
            diverged: Vec::new(),
            peer_heights: Vec::new(),
            seen_signing: Vec::new(),
            head_moved_at: 0,
            pending_declines: Table::new(),
            pending_recovery: Vec::new(),
            announce_cooldown: Vec::new(),
            live_relays: None,
            next_id: 1,
            next_seq: 1,
            now: 0,
            retention_cutoff: 0,
            stored: false,
            wiki_asked: 0,
            votes_wait: false,
            resign_waits: false,
            drain_waits: false,
            notice: String::new(),
            effects: Vec::new(),
        };
        proof {
            assert(r.blocks.deep_view() =~= Seq::empty());
            assert(r.own_approvals.deep_view() =~= Seq::empty());
            assert(r.applied.deep_view() =~= Seq::empty());
            assert(r.anchors.deep_view() =~= Seq::empty());
            assert(r.member_relays.deep_view() =~= Seq::empty());
            assert(r.split_noted.deep_view() =~= Seq::empty());
            assert(r.diverged.deep_view() =~= Seq::empty());
            assert(r.peer_heights.deep_view() =~= Seq::empty());
            assert(r.seen_signing.deep_view() =~= Seq::empty());
            assert(r.pending_recovery.deep_view() =~= Seq::empty());
            assert(r.announce_cooldown.deep_view() =~= Seq::empty());
            assert(r.notice@ =~= Seq::empty());
            assert(r.effects.deep_view() =~= Seq::empty());
        }
        r
    }

    /// This holder's own name.
    pub fn member(&self) -> (r: String)
        ensures
            r@ == self.deep_view().me(),
    {
        match &self.replica {
            Some(r) => r.member.clone(),
            None => String::new(),
        }
    }

    /// The republic's id.
    pub fn republic_id(&self) -> (r: String)
        ensures
            r@ == self.deep_view().rid(),
    {
        match &self.replica {
            Some(r) => r.republic_id.clone(),
            None => String::new(),
        }
    }

    /// The roster's names.
    pub fn roster(&self) -> (r: Vec<String>)
        ensures
            r.deep_view() == self.deep_view().roster(),
    {
        match &self.replica {
            Some(r) => r.roster.clone(),
            None => {
                let none: Vec<String> = Vec::new();
                assert(none.deep_view() =~= Seq::empty());
                none
            },
        }
    }

    /// One more thing for the host to do.
    pub fn doing(&mut self, effect: Effect)
        ensures
            final(self).deep_view() == old(self).deep_view().doing(effect.deep_view()),
    {
        let ghost e = self.effects.deep_view();
        self.effects.push(effect);
        assert(self.effects.deep_view() =~= e.push(effect.deep_view()));
    }

    /// One more thing to tell the frontends.
    pub fn emit(&mut self, event: Event)
        ensures
            final(self).deep_view() == old(self).deep_view().emitting(event.deep_view()),
    {
        self.doing(Effect::Emit { event });
    }

    /// Records an event and sends it to the members.
    pub fn record(&mut self, body: WorkspaceEvent)
        ensures
            final(self).deep_view() == old(self).deep_view().recording(body.deep_view()),
    {
        self.doing(Effect::Send { body });
        self.next_seq = next_after(self.next_seq);
    }

    /// Hands the chain as it stands to the storage, once for a whole batch.
    /// What came of it is told later, by whoever waits for it.
    pub fn persist_chain_now(&mut self)
        ensures
            final(self).deep_view() == old(self).deep_view().persisting(),
    {
        self.doing(
            Effect::PersistChain { blob: self.checkpoint_blob.clone(), blocks: self.blocks.clone() },
        );
    }
}

} // verus!
