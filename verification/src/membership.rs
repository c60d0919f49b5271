//! Membership: proposing and registering a re-admission, the approval that a
//! verified consent earns by itself, and the coordinator's checks on a
//! returning member's request.

use crate::canonical;
use crate::canonical::{restore_consent_bytes, seat_proof_bytes};
use crate::governance;
use crate::governance::new_card;
use crate::history;
use crate::history::shares_one;
use crate::identity;
use crate::identity::identity_verify;
use crate::model::{
    Anchor, AnchorV, BlockV, ChainBlock, ChainChange, ChangeV, IdentityV, MemberIdentity,
    MembershipOp, Surface,
};
use crate::payload;
use crate::payload::{Field, FieldV, Payload, PayloadV};
use crate::recovery;
use crate::recovery::drop_recovery;
use crate::signers;
use crate::signers::find_seat;
use crate::state;
use crate::state::{
    next_after, PendingRecovery, ProposalState, RecoveryV, State, StateV, WireV, WorkspaceEvent,
};
use crate::table;
use crate::table::Table;
use crate::text::same_text;
use crate::votes;
use crate::votes::membership_card_op;
use vstd::prelude::*;
use vstd::string::*;

verus! {

/// The content of a membership card.
pub open spec fn card_content(op: MembershipOp, member: Seq<char>) -> PayloadV {
    PayloadV::Object(
        seq![
            FieldV { name: "member"@, value: PayloadV::Text(member) },
            FieldV { name: "op"@, value: PayloadV::Text(votes::card_op(op)) },
        ],
    )
}

/// The content of a membership card.
pub fn membership_payload(op: MembershipOp, member: &str) -> (r: Payload)
    ensures
        r.deep_view() == card_content(op, member@),
{
    let m = Field { name: "member".to_owned(), value: Payload::Text(member.to_owned()) };
    let o = Field {
        name: "op".to_owned(),
        value: Payload::Text(membership_card_op(op).to_owned()),
    };
    let fields: Vec<Field> = vec![m, o];
    let r = Payload::Object(fields);
    proof {
        assert(fields@[0] == m);
        assert(fields@[1] == o);
        assert(payload::field_model(m).value == PayloadV::Text(member@));
        assert(payload::field_model(o).value == PayloadV::Text(votes::card_op(op)));
        assert(r.deep_view()->Object_0 =~= card_content(op, member@)->Object_0);
    }
    r
}

/// A card with that content is the card of that membership change, and it
/// never reads as an ordinary proposal.
pub proof fn a_membership_card_is_known_by_its_content(
    op: MembershipOp,
    member: Seq<char>,
    by: Seq<char>,
)
    ensures
        votes::wears(
            governance::open_card(Surface::Organization, card_content(op, member), by),
            op,
            member,
        ),
        card_content(op, member).has_op("restore_member"@) || card_content(op, member).has_op(
            "add_member"@,
        ),
{
    reveal_strlit("member");
    reveal_strlit("op");
    let fields = card_content(op, member)->Object_0;
    assert(fields[0].name.len() != "op"@.len());
    assert(fields.skip(1)[0] == fields[1]);
    reveal_with_fuel(payload::field_of, 3);
}

/// How many membership changes are registered.
pub open spec fn memberships_pending(changes: Seq<(u64, ChangeV)>) -> nat
    decreases changes.len(),
{
    if changes.len() == 0 {
        0
    } else {
        memberships_pending(changes.drop_last()) + (if changes.last().1 is Membership {
            1nat
        } else {
            0nat
        })
    }
}

/// How many membership changes are registered.
pub fn count_memberships(changes: &Table<ChainChange>) -> (r: usize)
    ensures
        r == memberships_pending(changes.deep_view()),
{
    let ghost all = changes.deep_view();
    let rows = changes.rows();
    let mut n: usize = 0;
    let mut i: usize = 0;
    assert(all.take(0) =~= Seq::empty());
    while i < rows.len()
        invariant
            i <= rows.len(),
            n <= i,
            all == changes.deep_view(),
            all == rows.deep_view(),
            n == memberships_pending(all.take(i as int)),
        decreases rows.len() - i,
    {
        proof {
            assert(all.take(i + 1).drop_last() =~= all.take(i as int));
            assert(all.take(i + 1).last() == rows@[i as int].deep_view());
        }
        match rows[i].value {
            ChainChange::Membership { .. } => {
                n = n + 1;
            },
            _ => {},
        }
        i = i + 1;
    }
    assert(all.take(i as int) =~= all);
    n
}

/// Is `pk` the transport key of some seat?
pub open spec fn seat_has_key(identities: Seq<IdentityV>, pk: Seq<char>) -> bool {
    exists|i: int| 0 <= i < identities.len() && (#[trigger] identities[i]).nostr_pk == pk
}

/// Does this change give a returning seat the transport key `pk`?
pub open spec fn re_anchors(change: ChangeV, pk: Seq<char>) -> bool {
    match change {
        ChangeV::Membership { op: MembershipOp::Restored, nostr_pk: Some(a), .. } => a == pk,
        _ => false,
    }
}

/// Did some block give a returning seat the transport key `pk`?
pub open spec fn block_has_key(blocks: Seq<BlockV>, pk: Seq<char>) -> bool {
    exists|i: int| 0 <= i < blocks.len() && re_anchors((#[trigger] blocks[i]).change, pk)
}

/// Is `pk` among the anchors?
pub open spec fn anchor_has_key(anchors: Seq<AnchorV>, pk: Seq<char>) -> bool {
    exists|i: int| 0 <= i < anchors.len() && (#[trigger] anchors[i]).nostr_pk == pk
}

/// Is `pk` the transport key of some seat?
fn any_seat_key(identities: &Vec<MemberIdentity>, pk: &str) -> (r: bool)
    ensures
        r == seat_has_key(identities.deep_view(), pk@),
{
    let ghost all = identities.deep_view();
    let mut i: usize = 0;
    while i < identities.len()
        invariant
            i <= identities.len(),
            all == identities.deep_view(),
            forall|k: int| 0 <= k < i ==> (#[trigger] all[k]).nostr_pk != pk@,
        decreases identities.len() - i,
    {
        assert(all[i as int] == identities@[i as int].deep_view());
        if same_text(identities[i].nostr_pk.as_str(), pk) {
            return true;
        }
        i = i + 1;
    }
    false
}

/// Did some block give a returning seat the transport key `pk`?
fn any_block_key(blocks: &Vec<ChainBlock>, pk: &str) -> (r: bool)
    ensures
        r == block_has_key(blocks.deep_view(), pk@),
{
    let ghost all = blocks.deep_view();
    let mut i: usize = 0;
    while i < blocks.len()
        invariant
            i <= blocks.len(),
            all == blocks.deep_view(),
            forall|k: int| 0 <= k < i ==> !re_anchors((#[trigger] all[k]).change, pk@),
        decreases blocks.len() - i,
    {
        assert(all[i as int] == blocks@[i as int].deep_view());
        match &blocks[i].change {
            ChainChange::Membership { op, nostr_pk: Some(a), .. } => {
                if *op == MembershipOp::Restored && same_text(a.as_str(), pk) {
                    return true;
                }
            },
            _ => {},
        }
        i = i + 1;
    }
    false
}

/// Is `pk` among the anchors?
fn any_anchor_key(anchors: &Vec<Anchor>, pk: &str) -> (r: bool)
    ensures
        r == anchor_has_key(anchors.deep_view(), pk@),
{
    let ghost all = anchors.deep_view();
    let mut i: usize = 0;
    while i < anchors.len()
        invariant
            i <= anchors.len(),
            all == anchors.deep_view(),
            forall|k: int| 0 <= k < i ==> (#[trigger] all[k]).nostr_pk != pk@,
        decreases anchors.len() - i,
    {
        assert(all[i as int] == anchors@[i as int].deep_view());
        if same_text(anchors[i].nostr_pk.as_str(), pk) {
            return true;
        }
        i = i + 1;
    }
    false
}

/// The text; none where it is empty.
pub open spec fn if_any(t: Seq<char>) -> Option<Seq<char>> {
    if t.len() == 0 {
        None
    } else {
        Some(t)
    }
}

/// The text; none where it is empty.
fn text_if_any(t: &str) -> (r: Option<String>)
    ensures
        r.deep_view() == if_any(t@),
{
    if t.is_empty() {
        None
    } else {
        Some(t.to_owned())
    }
}

/// A returning member's request, as it reached the coordinator.
#[derive(Debug)]
struct RestoreRequest {
    /// Whether it came over a minted link.
    pub ticketed: bool,
    pub member: String,
    /// The identity key that the member claims.
    pub identity_pk: String,
    /// The fresh key package, in hex.
    pub key_package: String,
    pub ticket: String,
    pub seat_proof: String,
    /// The new transport key; empty where there is none.
    pub nostr_pk: String,
    /// The relays that the member declares; empty where it declares none.
    pub relays: Vec<String>,
    /// The member's consent; empty where it gave none.
    pub consent: String,
    /// Where the welcome goes.
    pub reply: String,
}

/// A returning member's request.
pub struct RequestV {
    pub ticketed: bool,
    pub member: Seq<char>,
    pub identity_pk: Seq<char>,
    pub key_package: Seq<char>,
    pub ticket: Seq<char>,
    pub seat_proof: Seq<char>,
    pub nostr_pk: Seq<char>,
    pub relays: Seq<Seq<char>>,
    pub consent: Seq<char>,
    pub reply: Seq<char>,
}

impl DeepView for RestoreRequest {
    type V = RequestV;

    closed spec fn deep_view(&self) -> RequestV {
        RequestV {
            ticketed: self.ticketed,
            member: self.member@,
            identity_pk: self.identity_pk@,
            key_package: self.key_package@,
            ticket: self.ticket@,
            seat_proof: self.seat_proof@,
            nostr_pk: self.nostr_pk@,
            relays: self.relays.deep_view(),
            consent: self.consent@,
            reply: self.reply@,
        }
    }
}

impl StateV {
    /// The card of a membership change, where there is none yet.
    pub open spec fn membership_carded(
        self,
        id: u64,
        op: MembershipOp,
        member: Seq<char>,
        by: Seq<char>,
    ) -> StateV {
        if table::has(self.proposals, id) {
            self
        } else {
            StateV {
                proposals: table::put(
                    self.proposals,
                    id,
                    governance::open_card(Surface::Organization, card_content(op, member), by),
                ),
                ..self
            }
        }
    }

    /// A membership change registered, announced and carded.
    pub open spec fn membership_announced(self, change: ChangeV) -> StateV {
        let id = self.next_id;
        let registered = StateV {
            next_id: state::after(self.next_id),
            proposal_changes: table::put(self.proposal_changes, id, change),
            ..self
        };
        match change {
            ChangeV::Membership { op, member, identity_pk, nostr_pk, relays, consent } => registered.recording(
            WireV::MembershipProposed {
                id,
                op,
                member,
                identity_pk,
                nostr_pk,
                relays,
                consent,
            }).membership_carded(id, op, member, self.me()),
            _ => registered,
        }
    }

    /// A membership change proposed, and signed where proposers sign.
    pub open spec fn proposing_membership(self, change: ChangeV) -> StateV {
        if self.self_cosign {
            self.membership_announced(change).signing(self.next_id)
        } else {
            self.membership_announced(change)
        }
    }

    /// How many membership changes may be pending at once: one for each seat
    /// and a few more.
    pub open spec fn membership_cap(self) -> nat {
        match self.replica {
            Some(r) => r.roster.len() + 8,
            None => 16,
        }
    }

    /// May a membership proposal from the wire be registered? Its id must be
    /// in reach and free, and there must be room.
    pub open spec fn admits_membership(self, id: u64, change: ChangeV) -> bool {
        &&& self.plausible(id)
        &&& (memberships_pending(self.proposal_changes) < self.membership_cap() || table::has(
            self.proposal_changes,
            id,
        ))
        &&& self.id_free(id, change)
    }

    /// Was `pk` ever a seat's transport key here, as far as the chain held
    /// and its summary tell?
    pub open spec fn anchor_seen(self, pk: Seq<char>) -> bool {
        &&& pk.len() > 0
        &&& {
            ||| (self.replica is Some && seat_has_key(self.replica->0.identities, pk))
            ||| block_has_key(self.blocks, pk)
            ||| (self.checkpoint_blob is Some && anchor_has_key(self.checkpoint_blob->0.anchors, pk))
        }
    }

    /// Can this holder attest the restore under `id` by itself? The change
    /// must be a consented restore of another seat that keeps its anchored
    /// identity key; a transport key that it names must be canonical and new
    /// to the chain; and the consent must verify against the anchored key.
    pub open spec fn attestable(self, id: u64, canonical_anchor: bool) -> bool {
        match (table::get(self.proposal_changes, id), self.head) {
            (
                Some(
                    ChangeV::Membership {
                        op: MembershipOp::Restored,
                        member,
                        identity_pk,
                        nostr_pk,
                        consent: Some(consent),
                        ..
                    },
                ),
                Some(head),
            ) => {
                &&& (self.card_state(id) is None || self.card_state(id) == Some(
                    ProposalState::Proposed,
                ))
                &&& self.me() != member
                &&& signers::seat_of(head.identities, member) is Some
                &&& signers::seat_of(head.identities, member)->0.identity_pk == identity_pk
                &&& (nostr_pk is Some ==> canonical_anchor && !self.anchor_seen(nostr_pk->0))
                &&& identity::verifies(
                    identity_pk,
                    canonical::restore_consent_bytes_of(
                        self.rid(),
                        member,
                        identity_pk,
                        signers::key_or_empty(nostr_pk),
                    ),
                    consent,
                )
            },
            _ => false,
        }
    }

    /// The restore under `id` signed, where this holder can attest it and has
    /// not done so at this height.
    pub open spec fn attesting(self, id: u64, canonical_anchor: bool) -> StateV {
        if self.attestable(id, canonical_anchor) && !self.own_stands(id) {
            self.signing(id)
        } else {
            self
        }
    }

    /// A membership proposal heard.
    pub open spec fn membership_heard(
        self,
        id: u64,
        change: ChangeV,
        canonical_anchor: bool,
    ) -> StateV {
        if !self.admits_membership(id, change) {
            self
        } else {
            let minted = self.minting_past(id);
            (StateV {
                proposal_changes: table::put(minted.proposal_changes, id, change),
                ..minted
            }).reverifying(id).attesting(id, canonical_anchor)
        }
    }

    /// Does the declaration leave `other` without a shared relay?
    pub open spec fn strands(
        self,
        member: Seq<char>,
        relays: Seq<Seq<char>>,
        other: Seq<char>,
    ) -> bool {
        &&& other != member
        &&& self.relays_of(other).len() > 0
        &&& !history::share_one(relays, self.relays_of(other))
    }

    /// Why a returning member's request is refused, if it is: its seat, its
    /// identity key, its proof, its consent, then the relays it declares.
    pub open spec fn restore_refusal(self, q: RequestV) -> Option<Seq<char>> {
        let seat = if self.replica is Some {
            signers::seat_of(self.replica->0.identities, q.member)
        } else {
            None
        };
        if seat is None {
            Some("no anchored seat for "@ + q.member)
        } else {
            let anchored = seat->0.identity_pk;
            if q.identity_pk != anchored {
                Some("recovery must re-derive the seat's own identity key"@)
            } else if !identity::verifies(
                anchored,
                canonical::seat_proof_bytes_of(
                    q.ticket,
                    q.key_package,
                    self.rid(),
                    q.nostr_pk,
                    q.relays,
                ),
                q.seat_proof,
            ) {
                Some("seat proof for "@ + q.member + " does not verify"@)
            } else if q.consent.len() > 0 && !identity::verifies(
                anchored,
                canonical::restore_consent_bytes_of(self.rid(), q.member, anchored, q.nostr_pk),
                q.consent,
            ) {
                Some("restore consent for "@ + q.member + " does not verify"@)
            } else if q.relays.len() > 0 && exists|i: int|
                0 <= i < self.roster().len() && self.strands(
                    q.member,
                    q.relays,
                    #[trigger] self.roster()[i],
                ) {
                Some(q.relays[0] + " is in nobody else's pool - add it first"@)
            } else {
                None
            }
        }
    }

    /// The change that an accepted request proposes. The relays are the ones
    /// declared; without a declaration, the founding pool goes with a new
    /// transport key.
    pub open spec fn restore_change(self, q: RequestV) -> ChangeV {
        ChangeV::Membership {
            op: MembershipOp::Restored,
            member: q.member,
            identity_pk: q.identity_pk,
            nostr_pk: if_any(q.nostr_pk),
            relays: if q.relays.len() > 0 {
                q.relays
            } else if q.nostr_pk.len() > 0 {
                self.founding_pool()
            } else {
                Seq::empty()
            },
            consent: if_any(q.consent),
        }
    }

    /// A request answered. An accepted one is on the list before its change is
    /// proposed: the block may commit right then, and the re-key looks there.
    pub open spec fn restoring(self, q: RequestV) -> StateV {
        if self.restore_refusal(q) is Some {
            self
        } else {
            (StateV {
                pending_recovery: recovery::recoveries_without(
                    self.pending_recovery,
                    q.member,
                ).push(
                    RecoveryV {
                        member: q.member,
                        ticketed: q.ticketed,
                        key_package: q.key_package,
                        reply: q.reply,
                    },
                ),
                ..self
            }).proposing_membership(self.restore_change(q))
        }
    }
}

impl State {
    /// Makes the card of a membership change, where there is none yet.
    pub fn membership_card(&mut self, id: u64, op: MembershipOp, member: &str, by: &str)
        ensures
            final(self).deep_view() == old(self).deep_view().membership_carded(
                id,
                op,
                member@,
                by@,
            ),
    {
        if !self.proposals.contains_key(id) {
            let card = new_card(
                Surface::Organization,
                membership_payload(op, member),
                ProposalState::Proposed,
                by.to_owned(),
            );
            self.proposals.insert(id, card);
        }
    }

    /// Proposes a membership change, and signs it where proposers sign.
    /// Returns the proposal's id.
    pub fn propose_membership(
        &mut self,
        op: MembershipOp,
        member: &str,
        identity_pk: &str,
        nostr_pk: Option<String>,
        relays: Vec<String>,
        consent: Option<String>,
    ) -> (r: u64)
        ensures
            final(self).deep_view() == old(self).deep_view().proposing_membership(
                ChangeV::Membership {
                    op,
                    member: member@,
                    identity_pk: identity_pk@,
                    nostr_pk: nostr_pk.deep_view(),
                    relays: relays.deep_view(),
                    consent: consent.deep_view(),
                },
            ),
            r == old(self).deep_view().next_id,
    {
        let id: u64 = self.next_id;
        let me = self.member();
        self.next_id = next_after(self.next_id);
        self.proposal_changes.insert(
            id,
            ChainChange::Membership {
                op,
                member: member.to_owned(),
                identity_pk: identity_pk.to_owned(),
                nostr_pk: nostr_pk.clone(),
                relays: relays.clone(),
                consent: consent.clone(),
            },
        );
        self.record(
            WorkspaceEvent::MembershipProposed {
                id,
                op,
                member: member.to_owned(),
                identity_pk: identity_pk.to_owned(),
                nostr_pk,
                relays,
                consent,
            },
        );
        self.membership_card(id, op, member, me.as_str());
        if self.self_cosign {
            self.chain_sign_and_gossip_approval(id);
        }
        id
    }

    /// May a membership proposal from the wire be registered?
    pub fn admits_membership_proposal(&self, id: u64, change: &ChainChange) -> (r: bool)
        ensures
            r == self.deep_view().admits_membership(id, change.deep_view()),
    {
        if !self.plausible_wire_id(id) {
            return false;
        }
        let pending = count_memberships(&self.proposal_changes);
        let full = match &self.replica {
            Some(r) => pending >= 8 && pending - 8 >= r.roster.len(),
            None => pending >= 16,
        };
        if full && !self.proposal_changes.contains_key(id) {
            return false;
        }
        self.id_free_for(id, change)
    }

    /// Registers a membership proposal that another member made, so that an
    /// approval here signs the same change. `canonical_anchor` says whether
    /// the transport key that the change names is written in its one
    /// canonical form.
    pub fn receive_membership_proposal(
        &mut self,
        id: u64,
        op: MembershipOp,
        member: &str,
        identity_pk: &str,
        nostr_pk: Option<String>,
        relays: Vec<String>,
        consent: Option<String>,
        canonical_anchor: bool,
    )
        ensures
            final(self).deep_view() == old(self).deep_view().membership_heard(
                id,
                ChangeV::Membership {
                    op,
                    member: member@,
                    identity_pk: identity_pk@,
                    nostr_pk: nostr_pk.deep_view(),
                    relays: relays.deep_view(),
                    consent: consent.deep_view(),
                },
                canonical_anchor,
            ),
    {
        let change = ChainChange::Membership {
            op,
            member: member.to_owned(),
            identity_pk: identity_pk.to_owned(),
            nostr_pk,
            relays,
            consent,
        };
        if !self.admits_membership_proposal(id, &change) {
            return;
        }
        self.mint_past(id);
        self.proposal_changes.insert(id, change);
        self.reverify_pending(id);
        self.auto_approve_restore(id, canonical_anchor);
    }

    /// Can this holder attest the restore under `id` by itself?
    fn attests_restore(&self, id: u64, canonical_anchor: bool) -> (r: bool)
        ensures
            r == self.deep_view().attestable(id, canonical_anchor),
    {
        match (self.proposal_changes.get(id), &self.head) {
            (
                Some(
                    ChainChange::Membership {
                        op,
                        member,
                        identity_pk,
                        nostr_pk,
                        relays: _,
                        consent: Some(consent),
                    },
                ),
                Some(head),
            ) => {
                if *op != MembershipOp::Restored {
                    return false;
                }
                match self.proposals.get(id) {
                    Some(p) => {
                        if p.state != ProposalState::Proposed {
                            return false;
                        }
                    },
                    None => {},
                }
                let me = self.member();
                if same_text(me.as_str(), member.as_str()) {
                    return false;
                }
                let anchored: String = match find_seat(&head.identities, member.as_str()) {
                    Some(seat) => seat.identity_pk.clone(),
                    None => {
                        return false;
                    },
                };
                if anchored != *identity_pk {
                    return false;
                }
                let mut transport: String = String::new();
                match nostr_pk {
                    Some(npk) => {
                        if !canonical_anchor || self.anchor_seen_in_chain(npk.as_str()) {
                            return false;
                        }
                        transport = npk.clone();
                    },
                    None => {},
                }
                let rid = self.republic_id();
                let bytes = restore_consent_bytes(
                    rid.as_str(),
                    member.as_str(),
                    anchored.as_str(),
                    transport.as_str(),
                );
                identity_verify(anchored.as_str(), bytes.as_slice(), consent.as_str())
            },
            _ => false,
        }
    }

    /// Signs a restore whose consent this holder verified itself: that is an
    /// attestation, not a decision. A restore without a consent waits for a
    /// human voice.
    pub fn auto_approve_restore(&mut self, id: u64, canonical_anchor: bool)
        ensures
            final(self).deep_view() == old(self).deep_view().attesting(id, canonical_anchor),
    {
        if self.attests_restore(id, canonical_anchor) && !self.own_signature_stands(id) {
            self.chain_sign_and_gossip_approval(id);
        }
    }

    /// Was `pk` ever a seat's transport key here? The chain is the register
    /// that a replayed request is held against.
    pub fn anchor_seen_in_chain(&self, pk: &str) -> (r: bool)
        ensures
            r == self.deep_view().anchor_seen(pk@),
    {
        if pk.is_empty() {
            return false;
        }
        match &self.replica {
            Some(r) => {
                if any_seat_key(&r.identities, pk) {
                    return true;
                }
            },
            None => {},
        }
        if any_block_key(&self.blocks, pk) {
            return true;
        }
        match &self.checkpoint_blob {
            Some(blob) => any_anchor_key(&blob.anchors, pk),
            None => false,
        }
    }

    /// Does the declaration leave some member without a shared relay?
    fn strands_someone(&self, member: &str, relays: &Vec<String>) -> (r: bool)
        ensures
            r == exists|i: int|
                0 <= i < self.deep_view().roster().len() && self.deep_view().strands(
                    member@,
                    relays.deep_view(),
                    #[trigger] self.deep_view().roster()[i],
                ),
    {
        let roster = self.roster();
        let ghost names = roster.deep_view();
        let ghost s = self.deep_view();
        let mut i: usize = 0;
        while i < roster.len()
            invariant
                i <= roster.len(),
                s == self.deep_view(),
                names == roster.deep_view(),
                names == s.roster(),
                forall|k: int|
                    0 <= k < i ==> !s.strands(member@, relays.deep_view(), #[trigger] names[k]),
            decreases roster.len() - i,
        {
            assert(names[i as int] == roster@[i as int]@);
            if !same_text(roster[i].as_str(), member) {
                let theirs = self.member_relays(roster[i].as_str());
                if theirs.len() > 0 && !shares_one(relays, &theirs) {
                    assert(s.strands(member@, relays.deep_view(), s.roster()[i as int]));
                    return true;
                }
            }
            i = i + 1;
        }
        false
    }

    /// Why a returning member's request is refused, if it is.
    fn refuse_restore(&self, q: &RestoreRequest) -> (r: Option<String>)
        ensures
            r.deep_view() == self.deep_view().restore_refusal(q.deep_view()),
    {
        let anchored: Option<String> = match &self.replica {
            Some(r) => match find_seat(&r.identities, q.member.as_str()) {
                Some(seat) => Some(seat.identity_pk.clone()),
                None => None,
            },
            None => None,
        };
        let anchored: String = match anchored {
            Some(a) => a,
            None => {
                let mut line = "no anchored seat for ".to_owned();
                line.append(q.member.as_str());
                return Some(line);
            },
        };
        if q.identity_pk != anchored {
            return Some("recovery must re-derive the seat's own identity key".to_owned());
        }
        let rid = self.republic_id();
        let proof_bytes = seat_proof_bytes(
            q.ticket.as_str(),
            q.key_package.as_str(),
            rid.as_str(),
            q.nostr_pk.as_str(),
            &q.relays,
        );
        if !identity_verify(anchored.as_str(), proof_bytes.as_slice(), q.seat_proof.as_str()) {
            let mut line = "seat proof for ".to_owned();
            line.append(q.member.as_str());
            line.append(" does not verify");
            return Some(line);
        }
        if !q.consent.as_str().is_empty() {
            let bytes = restore_consent_bytes(
                rid.as_str(),
                q.member.as_str(),
                anchored.as_str(),
                q.nostr_pk.as_str(),
            );
            if !identity_verify(anchored.as_str(), bytes.as_slice(), q.consent.as_str()) {
                let mut line = "restore consent for ".to_owned();
                line.append(q.member.as_str());
                line.append(" does not verify");
                return Some(line);
            }
        }
        if q.relays.len() > 0 && self.strands_someone(q.member.as_str(), &q.relays) {
            let mut line = q.relays[0].clone();
            line.append(" is in nobody else's pool - add it first");
            assert(q.deep_view().relays[0] == q.relays@[0]@);
            return Some(line);
        }
        None
    }

    /// A coordinator's decision on a returning member's request: checks the
    /// seat proof against the anchored identity, then proposes the
    /// re-admission. Returns the proposal's id, or the refusal.
    pub fn verify_and_propose_restore(
        &mut self,
        ticketed: bool,
        member: &str,
        requested_pk: &str,
        key_package_hex: &str,
        ticket: &str,
        seat_proof: &str,
        new_nostr_pk: &str,
        declared_relays: &Vec<String>,
        consent: &str,
        reply: &str,
    ) -> (r: Result<u64, String>)
        ensures
            ({
                let s = old(self).deep_view();
                let q = RequestV {
                    ticketed,
                    member: member@,
                    identity_pk: requested_pk@,
                    key_package: key_package_hex@,
                    ticket: ticket@,
                    seat_proof: seat_proof@,
                    nostr_pk: new_nostr_pk@,
                    relays: declared_relays.deep_view(),
                    consent: consent@,
                    reply: reply@,
                };
                &&& final(self).deep_view() == s.restoring(q)
                &&& match r {
                    Ok(id) => s.restore_refusal(q) is None && id == s.next_id,
                    Err(e) => s.restore_refusal(q) == Some(e@),
                }
            }),
    {
        self.answer_restore(
            RestoreRequest {
                ticketed,
                member: member.to_owned(),
                identity_pk: requested_pk.to_owned(),
                key_package: key_package_hex.to_owned(),
                ticket: ticket.to_owned(),
                seat_proof: seat_proof.to_owned(),
                nostr_pk: new_nostr_pk.to_owned(),
                relays: declared_relays.clone(),
                consent: consent.to_owned(),
                reply: reply.to_owned(),
            },
        )
    }

    /// Answers a returning member's request: the proposal's id, or the
    /// refusal.
    fn answer_restore(&mut self, q: RestoreRequest) -> (r: Result<u64, String>)
        ensures
            final(self).deep_view() == old(self).deep_view().restoring(q.deep_view()),
            match r {
                Ok(id) => old(self).deep_view().restore_refusal(q.deep_view()) is None && id == old(
                    self,
                ).deep_view().next_id,
                Err(e) => old(self).deep_view().restore_refusal(q.deep_view()) == Some(e@),
            },
    {
        match self.refuse_restore(&q) {
            Some(e) => {
                return Err(e);
            },
            None => {},
        }
        let relays: Vec<String> = if q.relays.len() > 0 {
            q.relays.clone()
        } else if !q.nostr_pk.as_str().is_empty() {
            self.ratified_relays()
        } else {
            Vec::new()
        };
        proof {
            if q.relays.len() == 0 && q.nostr_pk@.len() == 0 {
                assert(relays.deep_view() =~= Seq::empty());
            }
        }
        let nostr_pk = text_if_any(q.nostr_pk.as_str());
        let consent = text_if_any(q.consent.as_str());
        let mut pending = drop_recovery(&self.pending_recovery, q.member.as_str());
        let ghost others = pending.deep_view();
        let entry = PendingRecovery {
            member: q.member.clone(),
            ticketed: q.ticketed,
            key_package: q.key_package.clone(),
            reply: q.reply.clone(),
        };
        pending.push(entry);
        assert(pending.deep_view() =~= others.push(entry.deep_view()));
        self.pending_recovery = pending;
        let id: u64 = self.propose_membership(
            MembershipOp::Restored,
            q.member.as_str(),
            q.identity_pk.as_str(),
            nostr_pk,
            relays,
            consent,
        );
        Ok(id)
    }
}

} // verus!
