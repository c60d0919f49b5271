//! The chain's own data: members, blocks, the changes they carry, and the
//! state that a checkpoint summarizes.

use crate::payload::{Payload, PayloadV};
use vstd::prelude::*;
use vstd::string::*;

verus! {

/// A shared area of the republic, governed by its own proposals.
#[derive(Debug, Clone, Copy, PartialEq, Eq, Structural)]
pub enum Surface {
    Organization,
    Chat,
    Memory,
    Quests,
    Vault,
    Wallet,
}

impl DeepView for Surface {
    type V = Surface;

    open spec fn deep_view(&self) -> Surface {
        *self
    }
}

/// Every surface, in the order in which a summary lists them.
pub open spec fn all_surfaces() -> Seq<Surface> {
    seq![
        Surface::Organization,
        Surface::Chat,
        Surface::Memory,
        Surface::Quests,
        Surface::Vault,
        Surface::Wallet,
    ]
}

/// A surface's place in [`all_surfaces`].
pub open spec fn surface_rank(s: Surface) -> int {
    match s {
        Surface::Organization => 0,
        Surface::Chat => 1,
        Surface::Memory => 2,
        Surface::Quests => 3,
        Surface::Vault => 4,
        Surface::Wallet => 5,
    }
}

/// A surface's name.
pub open spec fn surface_name(s: Surface) -> Seq<char> {
    match s {
        Surface::Organization => "organization"@,
        Surface::Chat => "chat"@,
        Surface::Memory => "memory"@,
        Surface::Quests => "quests"@,
        Surface::Vault => "vault"@,
        Surface::Wallet => "wallet"@,
    }
}

impl Surface {
    /// Every surface, in the order in which a summary lists them.
    pub fn all() -> (r: Vec<Surface>)
        ensures
            r@ == all_surfaces(),
    {
        let r = vec![
            Surface::Organization,
            Surface::Chat,
            Surface::Memory,
            Surface::Quests,
            Surface::Vault,
            Surface::Wallet,
        ];
        assert(r@ =~= all_surfaces());
        r
    }

    /// The surface's place in [`Surface::all`].
    pub fn rank(self) -> (r: u8)
        ensures
            r == surface_rank(self),
    {
        match self {
            Surface::Organization => 0,
            Surface::Chat => 1,
            Surface::Memory => 2,
            Surface::Quests => 3,
            Surface::Vault => 4,
            Surface::Wallet => 5,
        }
    }

    /// The surface's name.
    pub fn as_str(self) -> (r: &'static str)
        ensures
            r@ == surface_name(self),
    {
        match self {
            Surface::Organization => "organization",
            Surface::Chat => "chat",
            Surface::Memory => "memory",
            Surface::Quests => "quests",
            Surface::Vault => "vault",
            Surface::Wallet => "wallet",
        }
    }
}

/// What a membership block does to a seat.
#[derive(Debug, Clone, Copy, PartialEq, Eq, Structural)]
pub enum MembershipOp {
    /// A new seat. Reserved: seats are fixed at founding.
    Joined,
    /// A returning member takes its own seat back.
    Restored,
}

impl DeepView for MembershipOp {
    type V = MembershipOp;

    open spec fn deep_view(&self) -> MembershipOp {
        *self
    }
}

/// A seat: who holds it and the keys it is anchored to.
#[derive(Debug, PartialEq, Eq)]
pub struct MemberIdentity {
    /// The member's name.
    pub member: String,
    /// The signing key, in hex.
    pub identity_pk: String,
    /// The transport key at founding, in hex.
    pub nostr_pk: String,
}

/// The model of [`MemberIdentity`].
pub struct IdentityV {
    pub member: Seq<char>,
    pub identity_pk: Seq<char>,
    pub nostr_pk: Seq<char>,
}

impl DeepView for MemberIdentity {
    type V = IdentityV;

    open spec fn deep_view(&self) -> IdentityV {
        IdentityV {
            member: self.member@,
            identity_pk: self.identity_pk@,
            nostr_pk: self.nostr_pk@,
        }
    }
}

impl Clone for MemberIdentity {
    fn clone(&self) -> (r: Self)
        ensures
            r.deep_view() == self.deep_view(),
    {
        MemberIdentity {
            member: self.member.clone(),
            identity_pk: self.identity_pk.clone(),
            nostr_pk: self.nostr_pk.clone(),
        }
    }
}

/// A member's signature over a block.
#[derive(Debug, PartialEq, Eq)]
pub struct RosterAttestation {
    pub member: String,
    pub sig: String,
}

/// The model of [`RosterAttestation`].
pub struct AttestationV {
    pub member: Seq<char>,
    pub sig: Seq<char>,
}

impl DeepView for RosterAttestation {
    type V = AttestationV;

    open spec fn deep_view(&self) -> AttestationV {
        AttestationV {
            member: self.member@,
            sig: self.sig@,
        }
    }
}

impl Clone for RosterAttestation {
    fn clone(&self) -> (r: Self)
        ensures
            r.deep_view() == self.deep_view(),
    {
        RosterAttestation {
            member: self.member.clone(),
            sig: self.sig.clone(),
        }
    }
}

/// What a block changes.
#[derive(Debug, PartialEq, Eq)]
pub enum ChainChange {
    /// The founding: the constitution and its first roster.
    Genesis {
        name: String,
        republic_id: String,
        rule_m: u8,
        rule_n: u8,
        identities: Vec<MemberIdentity>,
        agenda: String,
        features: Option<Vec<String>>,
        relays: Vec<String>,
    },
    /// An approved proposal.
    Applied {
        proposal_id: u64,
        surface: Surface,
        payload: Payload,
    },
    /// A change to a seat.
    Membership {
        op: MembershipOp,
        member: String,
        identity_pk: String,
        nostr_pk: Option<String>,
        relays: Vec<String>,
        consent: Option<String>,
    },
    /// A summary of everything up to a height.
    Checkpoint {
        upto: u64,
        state_hash: String,
    },
}

/// The model of [`ChainChange`].
pub enum ChangeV {
    Genesis {
        name: Seq<char>,
        republic_id: Seq<char>,
        rule_m: u8,
        rule_n: u8,
        identities: Seq<IdentityV>,
        agenda: Seq<char>,
        features: Option<Seq<Seq<char>>>,
        relays: Seq<Seq<char>>,
    },
    Applied {
        proposal_id: u64,
        surface: Surface,
        payload: PayloadV,
    },
    Membership {
        op: MembershipOp,
        member: Seq<char>,
        identity_pk: Seq<char>,
        nostr_pk: Option<Seq<char>>,
        relays: Seq<Seq<char>>,
        consent: Option<Seq<char>>,
    },
    Checkpoint {
        upto: u64,
        state_hash: Seq<char>,
    },
}

impl DeepView for ChainChange {
    type V = ChangeV;

    open spec fn deep_view(&self) -> ChangeV {
        match *self {
            ChainChange::Genesis { name, republic_id, rule_m, rule_n, identities, agenda, features, relays } => ChangeV::Genesis {
                name: name@,
                republic_id: republic_id@,
                rule_m,
                rule_n,
                identities: identities.deep_view(),
                agenda: agenda@,
                features: features.deep_view(),
                relays: relays.deep_view(),
            },
            ChainChange::Applied { proposal_id, surface, payload } => ChangeV::Applied {
                proposal_id,
                surface,
                payload: payload.deep_view(),
            },
            ChainChange::Membership { op, member, identity_pk, nostr_pk, relays, consent } => ChangeV::Membership {
                op,
                member: member@,
                identity_pk: identity_pk@,
                nostr_pk: nostr_pk.deep_view(),
                relays: relays.deep_view(),
                consent: consent.deep_view(),
            },
            ChainChange::Checkpoint { upto, state_hash } => ChangeV::Checkpoint {
                upto,
                state_hash: state_hash@,
            },
        }
    }
}

impl Clone for ChainChange {
    fn clone(&self) -> (r: Self)
        ensures
            r.deep_view() == self.deep_view(),
    {
        match self {
            ChainChange::Genesis { name, republic_id, rule_m, rule_n, identities, agenda, features, relays } => ChainChange::Genesis {
                name: name.clone(),
                republic_id: republic_id.clone(),
                rule_m: *rule_m,
                rule_n: *rule_n,
                identities: identities.clone(),
                agenda: agenda.clone(),
                features: features.clone(),
                relays: relays.clone(),
            },
            ChainChange::Applied { proposal_id, surface, payload } => ChainChange::Applied {
                proposal_id: *proposal_id,
                surface: *surface,
                payload: payload.clone(),
            },
            ChainChange::Membership { op, member, identity_pk, nostr_pk, relays, consent } => ChainChange::Membership {
                op: *op,
                member: member.clone(),
                identity_pk: identity_pk.clone(),
                nostr_pk: nostr_pk.clone(),
                relays: relays.clone(),
                consent: consent.clone(),
            },
            ChainChange::Checkpoint { upto, state_hash } => ChainChange::Checkpoint {
                upto: *upto,
                state_hash: state_hash.clone(),
            },
        }
    }
}

/// One committed block.
#[derive(Debug, PartialEq, Eq)]
pub struct ChainBlock {
    pub height: u64,
    /// The hash of the block before; the zero root for the first.
    pub prev: String,
    pub change: ChainChange,
    pub sigs: Vec<RosterAttestation>,
}

/// The model of [`ChainBlock`].
pub struct BlockV {
    pub height: u64,
    pub prev: Seq<char>,
    pub change: ChangeV,
    pub sigs: Seq<AttestationV>,
}

impl DeepView for ChainBlock {
    type V = BlockV;

    open spec fn deep_view(&self) -> BlockV {
        BlockV {
            height: self.height,
            prev: self.prev@,
            change: self.change.deep_view(),
            sigs: self.sigs.deep_view(),
        }
    }
}

impl Clone for ChainBlock {
    fn clone(&self) -> (r: Self)
        ensures
            r.deep_view() == self.deep_view(),
    {
        ChainBlock {
            height: self.height,
            prev: self.prev.clone(),
            change: self.change.clone(),
            sigs: self.sigs.clone(),
        }
    }
}

/// An applied proposal in a summary.
#[derive(Debug, PartialEq, Eq)]
pub struct AppliedEntry {
    pub id: u64,
    pub payload: Payload,
}

/// The model of [`AppliedEntry`].
pub struct EntryV {
    pub id: u64,
    pub payload: PayloadV,
}

impl DeepView for AppliedEntry {
    type V = EntryV;

    open spec fn deep_view(&self) -> EntryV {
        EntryV {
            id: self.id,
            payload: self.payload.deep_view(),
        }
    }
}

impl Clone for AppliedEntry {
    fn clone(&self) -> (r: Self)
        ensures
            r.deep_view() == self.deep_view(),
    {
        AppliedEntry {
            id: self.id,
            payload: self.payload.clone(),
        }
    }
}

/// One surface's applied proposals in a summary.
#[derive(Debug, PartialEq, Eq)]
pub struct AppliedGroup {
    pub surface: Surface,
    pub entries: Vec<AppliedEntry>,
}

/// The model of [`AppliedGroup`].
pub struct GroupV {
    pub surface: Surface,
    pub entries: Seq<EntryV>,
}

impl DeepView for AppliedGroup {
    type V = GroupV;

    open spec fn deep_view(&self) -> GroupV {
        GroupV {
            surface: self.surface,
            entries: self.entries.deep_view(),
        }
    }
}

impl Clone for AppliedGroup {
    fn clone(&self) -> (r: Self)
        ensures
            r.deep_view() == self.deep_view(),
    {
        AppliedGroup {
            surface: self.surface,
            entries: self.entries.clone(),
        }
    }
}

/// A seat's working transport key.
#[derive(Debug, PartialEq, Eq)]
pub struct Anchor {
    pub member: String,
    pub nostr_pk: String,
}

/// The model of [`Anchor`].
pub struct AnchorV {
    pub member: Seq<char>,
    pub nostr_pk: Seq<char>,
}

impl DeepView for Anchor {
    type V = AnchorV;

    open spec fn deep_view(&self) -> AnchorV {
        AnchorV {
            member: self.member@,
            nostr_pk: self.nostr_pk@,
        }
    }
}

impl Clone for Anchor {
    fn clone(&self) -> (r: Self)
        ensures
            r.deep_view() == self.deep_view(),
    {
        Anchor {
            member: self.member.clone(),
            nostr_pk: self.nostr_pk.clone(),
        }
    }
}

/// The relays a seat declared that it reaches.
#[derive(Debug, PartialEq, Eq)]
pub struct RelayDeclaration {
    pub member: String,
    pub relays: Vec<String>,
}

/// The model of [`RelayDeclaration`].
pub struct DeclarationV {
    pub member: Seq<char>,
    pub relays: Seq<Seq<char>>,
}

impl DeepView for RelayDeclaration {
    type V = DeclarationV;

    open spec fn deep_view(&self) -> DeclarationV {
        DeclarationV {
            member: self.member@,
            relays: self.relays.deep_view(),
        }
    }
}

impl Clone for RelayDeclaration {
    fn clone(&self) -> (r: Self)
        ensures
            r.deep_view() == self.deep_view(),
    {
        RelayDeclaration {
            member: self.member.clone(),
            relays: self.relays.clone(),
        }
    }
}

/// The state that a checkpoint summarizes.
#[derive(Debug, PartialEq, Eq)]
pub struct CheckpointState {
    pub founding_name: String,
    pub rule_m: u8,
    pub rule_n: u8,
    pub founding_identities: Vec<MemberIdentity>,
    pub agenda: String,
    pub republic_id: String,
    /// The relay pool ratified at founding.
    pub relays: Vec<String>,
    pub founding_features: Option<Vec<String>>,
    pub roster: Vec<MemberIdentity>,
    pub applied: Vec<AppliedGroup>,
    /// Every proposal id applied so far.
    pub consumed_ids: Vec<u64>,
    /// Ascending by member.
    pub anchors: Vec<Anchor>,
    /// Ascending by member.
    pub member_relays: Vec<RelayDeclaration>,
    /// The height of the last summarized block.
    pub upto: u64,
}

/// The model of [`CheckpointState`].
pub struct SummaryV {
    pub founding_name: Seq<char>,
    pub rule_m: u8,
    pub rule_n: u8,
    pub founding_identities: Seq<IdentityV>,
    pub agenda: Seq<char>,
    pub republic_id: Seq<char>,
    pub relays: Seq<Seq<char>>,
    pub founding_features: Option<Seq<Seq<char>>>,
    pub roster: Seq<IdentityV>,
    pub applied: Seq<GroupV>,
    pub consumed_ids: Seq<u64>,
    pub anchors: Seq<AnchorV>,
    pub member_relays: Seq<DeclarationV>,
    pub upto: u64,
}

impl DeepView for CheckpointState {
    type V = SummaryV;

    open spec fn deep_view(&self) -> SummaryV {
        SummaryV {
            founding_name: self.founding_name@,
            rule_m: self.rule_m,
            rule_n: self.rule_n,
            founding_identities: self.founding_identities.deep_view(),
            agenda: self.agenda@,
            republic_id: self.republic_id@,
            relays: self.relays.deep_view(),
            founding_features: self.founding_features.deep_view(),
            roster: self.roster.deep_view(),
            applied: self.applied.deep_view(),
            consumed_ids: self.consumed_ids.deep_view(),
            anchors: self.anchors.deep_view(),
            member_relays: self.member_relays.deep_view(),
            upto: self.upto,
        }
    }
}

impl Clone for CheckpointState {
    fn clone(&self) -> (r: Self)
        ensures
            r.deep_view() == self.deep_view(),
    {
        CheckpointState {
            founding_name: self.founding_name.clone(),
            rule_m: self.rule_m,
            rule_n: self.rule_n,
            founding_identities: self.founding_identities.clone(),
            agenda: self.agenda.clone(),
            republic_id: self.republic_id.clone(),
            relays: self.relays.clone(),
            founding_features: self.founding_features.clone(),
            roster: self.roster.clone(),
            applied: self.applied.clone(),
            consumed_ids: self.consumed_ids.clone(),
            anchors: self.anchors.clone(),
            member_relays: self.member_relays.clone(),
            upto: self.upto,
        }
    }
}

/// One row of the chain history.
#[derive(Debug, PartialEq, Eq)]
pub struct ChainBlockView {
    pub height: u64,
    pub kind: String,
    pub surface: String,
    pub payload: Payload,
    pub proposal_id: u64,
    pub signers: Vec<String>,
}

/// The model of [`ChainBlockView`].
pub struct RowV {
    pub height: u64,
    pub kind: Seq<char>,
    pub surface: Seq<char>,
    pub payload: PayloadV,
    pub proposal_id: u64,
    pub signers: Seq<Seq<char>>,
}

impl DeepView for ChainBlockView {
    type V = RowV;

    open spec fn deep_view(&self) -> RowV {
        RowV {
            height: self.height,
            kind: self.kind@,
            surface: self.surface@,
            payload: self.payload.deep_view(),
            proposal_id: self.proposal_id,
            signers: self.signers.deep_view(),
        }
    }
}

impl Clone for ChainBlockView {
    fn clone(&self) -> (r: Self)
        ensures
            r.deep_view() == self.deep_view(),
    {
        ChainBlockView {
            height: self.height,
            kind: self.kind.clone(),
            surface: self.surface.clone(),
            payload: self.payload.clone(),
            proposal_id: self.proposal_id,
            signers: self.signers.clone(),
        }
    }
}

/// The founding constitution that a workspace is made from.
#[derive(Debug, PartialEq, Eq)]
pub struct SealedRoster {
    pub name: String,
    pub republic_id: String,
    pub rule_m: u8,
    pub rule_n: u8,
    pub identities: Vec<MemberIdentity>,
    pub agenda: String,
    pub features: Option<Vec<String>>,
    pub relays: Vec<String>,
    /// One for each founding member.
    pub attestations: Vec<RosterAttestation>,
}

/// The model of [`SealedRoster`].
pub struct SealedV {
    pub name: Seq<char>,
    pub republic_id: Seq<char>,
    pub rule_m: u8,
    pub rule_n: u8,
    pub identities: Seq<IdentityV>,
    pub agenda: Seq<char>,
    pub features: Option<Seq<Seq<char>>>,
    pub relays: Seq<Seq<char>>,
    pub attestations: Seq<AttestationV>,
}

impl DeepView for SealedRoster {
    type V = SealedV;

    open spec fn deep_view(&self) -> SealedV {
        SealedV {
            name: self.name@,
            republic_id: self.republic_id@,
            rule_m: self.rule_m,
            rule_n: self.rule_n,
            identities: self.identities.deep_view(),
            agenda: self.agenda@,
            features: self.features.deep_view(),
            relays: self.relays.deep_view(),
            attestations: self.attestations.deep_view(),
        }
    }
}

impl Clone for SealedRoster {
    fn clone(&self) -> (r: Self)
        ensures
            r.deep_view() == self.deep_view(),
    {
        SealedRoster {
            name: self.name.clone(),
            republic_id: self.republic_id.clone(),
            rule_m: self.rule_m,
            rule_n: self.rule_n,
            identities: self.identities.clone(),
            agenda: self.agenda.clone(),
            features: self.features.clone(),
            relays: self.relays.clone(),
            attestations: self.attestations.clone(),
        }
    }
}

} // verus!
