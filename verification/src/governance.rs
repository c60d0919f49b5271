//! Live governance: registering what is proposed, collecting signatures,
//! forgetting what is decided, and what a catching-up member is told of the
//! open votes.

use crate::canonical;
use crate::canonical::{approval_bytes, same_value};
use crate::model::{
    AttestationV, BlockV, ChainBlock, ChainChange, ChangeV, MembershipOp, RosterAttestation,
    Surface,
};
use crate::payload::{Payload, PayloadV};
use crate::state;
use crate::state::{
    next_after, Event, EventV, PendingApproval, PendingV, ProposalRecord, ProposalState, RecordV,
    State, StateV,
};
use crate::table;
use crate::table::Table;
use crate::text;
use crate::text::{add_name, has_name, same_text};
use crate::votes;
use crate::votes::{
    count_votes, drop_name, drop_sigs, has_signed, hear_voices, is_seated, reach_quorum,
    seat_vouches, wears_change,
};
use vstd::prelude::*;
use vstd::string::*;

verus! {

/// How many open cards one proposer may hold at once: a flooding member can
/// only crowd itself.
pub const OPEN_CARDS_PER_PROPOSER_MAX: usize = 64;

/// How far past the mint counter an id from the wire may be.
pub const PARKED_DECLINE_ID_WINDOW: u64 = 4096;

/// A collection that holds nothing yet.
pub open spec fn no_votes() -> PendingV {
    PendingV { height: 0, sigs: Seq::empty(), verified: Seq::empty() }
}

/// A new open card.
pub open spec fn open_card(surface: Surface, payload: PayloadV, by: Seq<char>) -> RecordV {
    RecordV {
        surface,
        payload,
        approvals: 0,
        state: ProposalState::Proposed,
        declined_at: 0,
        declined_by: Seq::empty(),
        decliners: Seq::empty(),
        voted: Seq::empty(),
        by,
        superseded: false,
        withdrawn: false,
    }
}

/// A card in the given state, with nothing heard of it yet.
pub fn new_card(surface: Surface, payload: Payload, state: ProposalState, by: String) -> (r:
    ProposalRecord)
    ensures
        r.deep_view() == (RecordV { state, ..open_card(surface, payload.deep_view(), by@) }),
{
    let r = ProposalRecord {
        surface,
        payload,
        approvals: 0,
        state,
        declined_at: 0,
        declined_by: String::new(),
        decliners: Vec::new(),
        voted: Vec::new(),
        by,
        superseded: false,
        withdrawn: false,
    };
    proof {
        assert(r.decliners.deep_view() =~= Seq::empty());
        assert(r.voted.deep_view() =~= Seq::empty());
        assert(r.declined_by@ =~= Seq::empty());
    }
    r
}

/// The ids under which exactly this change is registered, ascending.
pub open spec fn ids_naming(changes: Seq<(u64, ChangeV)>, sealed: ChangeV) -> Seq<u64>
    decreases changes.len(),
{
    if changes.len() == 0 {
        Seq::empty()
    } else if changes.last().1 == sealed {
        ids_naming(changes.drop_last(), sealed).push(changes.last().0)
    } else {
        ids_naming(changes.drop_last(), sealed)
    }
}

/// The ids under which exactly this change is registered, ascending.
pub fn registered_ids(changes: &Table<ChainChange>, sealed: &ChainChange) -> (r: Vec<u64>)
    ensures
        r@ == ids_naming(changes.deep_view(), sealed.deep_view()),
{
    let ghost all = changes.deep_view();
    let rows = changes.rows();
    let mut out: Vec<u64> = Vec::new();
    let mut i: usize = 0;
    assert(all.take(0) =~= Seq::empty());
    while i < rows.len()
        invariant
            i <= rows.len(),
            all == changes.deep_view(),
            all == rows.deep_view(),
            out@ == ids_naming(all.take(i as int), sealed.deep_view()),
        decreases rows.len() - i,
    {
        proof {
            assert(all.take(i + 1).drop_last() =~= all.take(i as int));
            assert(all.take(i + 1).last() == rows@[i as int].deep_view());
        }
        if same_value(rows[i].value, sealed) {
            out.push(rows[i].key);
        }
        i = i + 1;
    }
    assert(all.take(i as int) =~= all);
    out
}

/// The ids of the open cards of a membership change, ascending.
pub open spec fn open_cards_of(cards: Seq<(u64, RecordV)>, op: MembershipOp, member: Seq<char>) -> Seq<
    u64,
>
    decreases cards.len(),
{
    if cards.len() == 0 {
        Seq::empty()
    } else if cards.last().1.state == ProposalState::Proposed && votes::wears(
        cards.last().1,
        op,
        member,
    ) {
        open_cards_of(cards.drop_last(), op, member).push(cards.last().0)
    } else {
        open_cards_of(cards.drop_last(), op, member)
    }
}

/// The ids of the open cards of a membership change, ascending.
pub fn find_open_cards(cards: &Table<ProposalRecord>, op: MembershipOp, member: &str) -> (r: Vec<
    u64,
>)
    ensures
        r@ == open_cards_of(cards.deep_view(), op, member@),
{
    let ghost all = cards.deep_view();
    let rows = cards.rows();
    let mut out: Vec<u64> = Vec::new();
    let mut i: usize = 0;
    assert(all.take(0) =~= Seq::empty());
    while i < rows.len()
        invariant
            i <= rows.len(),
            all == cards.deep_view(),
            all == rows.deep_view(),
            out@ == open_cards_of(all.take(i as int), op, member@),
        decreases rows.len() - i,
    {
        proof {
            assert(all.take(i + 1).drop_last() =~= all.take(i as int));
            assert(all.take(i + 1).last() == rows@[i as int].deep_view());
        }
        if rows[i].value.state == ProposalState::Proposed && wears_change(
            rows[i].value,
            op,
            member,
        ) {
            out.push(rows[i].key);
        }
        i = i + 1;
    }
    assert(all.take(i as int) =~= all);
    out
}

/// How many open cards that member proposed.
pub open spec fn open_cards_by(cards: Seq<(u64, RecordV)>, by: Seq<char>) -> nat
    decreases cards.len(),
{
    if cards.len() == 0 {
        0
    } else {
        open_cards_by(cards.drop_last(), by) + (if cards.last().1.state == ProposalState::Proposed
            && cards.last().1.by == by {
            1nat
        } else {
            0nat
        })
    }
}

/// How many open cards that member proposed.
pub fn count_open_cards(cards: &Table<ProposalRecord>, by: &str) -> (r: usize)
    ensures
        r == open_cards_by(cards.deep_view(), by@),
{
    let ghost all = cards.deep_view();
    let rows = cards.rows();
    let mut n: usize = 0;
    let mut i: usize = 0;
    assert(all.take(0) =~= Seq::empty());
    while i < rows.len()
        invariant
            i <= rows.len(),
            n <= i,
            all == cards.deep_view(),
            all == rows.deep_view(),
            n == open_cards_by(all.take(i as int), by@),
        decreases rows.len() - i,
    {
        proof {
            assert(all.take(i + 1).drop_last() =~= all.take(i as int));
            assert(all.take(i + 1).last() == rows@[i as int].deep_view());
        }
        if rows[i].value.state == ProposalState::Proposed && same_text(
            rows[i].value.by.as_str(),
            by,
        ) {
            n = n + 1;
        }
        i = i + 1;
    }
    assert(all.take(i as int) =~= all);
    n
}

impl StateV {
    /// The change that a proposal would enact: the registered one, else the
    /// one its card describes. A membership card alone describes none.
    pub open spec fn change_for(self, id: u64) -> Option<ChangeV> {
        match table::get(self.proposal_changes, id) {
            Some(change) => Some(change),
            None => match table::get(self.proposals, id) {
                None => None,
                Some(p) => if p.payload.has_op("restore_member"@) || p.payload.has_op(
                    "add_member"@,
                ) {
                    None
                } else {
                    Some(
                        ChangeV::Applied { proposal_id: id, surface: p.surface, payload: p.payload },
                    )
                },
            },
        }
    }

    /// May `id` register `change`? It may where it names nothing yet, this
    /// very change, or the card of this membership change.
    pub open spec fn id_free(self, id: u64, change: ChangeV) -> bool {
        match table::get(self.proposal_changes, id) {
            Some(existing) => existing == change,
            None => match table::get(self.proposals, id) {
                None => true,
                Some(p) => match change {
                    ChangeV::Membership { op, member, .. } => votes::wears(p, op, member),
                    _ => false,
                },
            },
        }
    }

    /// How many members' signatures for a proposal verified here.
    pub open spec fn approval_count(self, id: u64) -> nat {
        match table::get(self.pending_sigs, id) {
            Some(p) => p.verified.len(),
            None => 0,
        }
    }

    /// The height that the next block will have; none without a head or above
    /// the largest height.
    pub open spec fn target(self) -> Option<u64> {
        match self.head {
            Some(h) => if h.height < u64::MAX {
                Some((h.height + 1) as u64)
            } else {
                None
            },
            None => None,
        }
    }

    /// Does this holder's own signature for `id` stand at the next height?
    pub open spec fn own_stands(self, id: u64) -> bool {
        match (self.target(), table::get(self.pending_sigs, id)) {
            (Some(target), Some(p)) => p.height == target && votes::signed_by(p.sigs, self.me()),
            _ => false,
        }
    }

    /// The voters heard so far kept on the card.
    pub open spec fn stashing(self, id: u64) -> StateV {
        match (table::get(self.pending_sigs, id), table::get(self.proposals, id)) {
            (Some(votes), Some(p)) => if votes.sigs.len() == 0 {
                self
            } else {
                StateV {
                    proposals: table::put(
                        self.proposals,
                        id,
                        RecordV { voted: votes::voices_with(p.voted, votes.sigs), ..p },
                    ),
                    ..self
                }
            },
            _ => self,
        }
    }

    /// The vote of a decided proposal forgotten; its voters stay on the card.
    pub open spec fn forgetting(self, id: u64) -> StateV {
        let stashed = self.stashing(id);
        StateV {
            pending_sigs: table::del(stashed.pending_sigs, id),
            proposal_changes: table::del(stashed.proposal_changes, id),
            ..stashed
        }
    }

    /// Several votes forgotten, in order.
    pub open spec fn forgetting_each(self, ids: Seq<u64>) -> StateV
        decreases ids.len(),
    {
        if ids.len() == 0 {
            self
        } else {
            self.forgetting_each(ids.drop_last()).forgetting(ids.last())
        }
    }

    /// Every vote on exactly this change forgotten.
    pub open spec fn forgetting_change(self, sealed: ChangeV) -> StateV {
        self.forgetting_each(ids_naming(self.proposal_changes, sealed))
    }

    /// May a signature for `id` under that name be held at all? Not for a
    /// decided proposal, not from outside the roster, and under the own name
    /// only where it verified.
    pub open spec fn may_collect(self, id: u64, member: Seq<char>, verified: bool) -> bool {
        &&& (table::get(self.proposals, id) is Some ==> table::get(self.proposals, id)->0.state
            == ProposalState::Proposed)
        &&& self.head is Some
        &&& votes::seated(self.head->0.identities, member)
        &&& (verified || member != self.me())
    }

    /// What is held for `id`; nothing yet where nothing was collected.
    pub open spec fn held(self, id: u64) -> PendingV {
        match table::get(self.pending_sigs, id) {
            Some(p) => p,
            None => no_votes(),
        }
    }

    /// One more signature for `id`. A newer height starts the collection
    /// anew, an older one is passed over. The later of two signatures under
    /// one name wins, but one that does not verify never takes the place of
    /// one that did.
    pub open spec fn collecting(
        self,
        id: u64,
        height: u64,
        att: AttestationV,
        verified: bool,
    ) -> StateV {
        let held = self.held(id);
        if !self.may_collect(id, att.member, verified) || height < held.height {
            self
        } else {
            let set = if height > held.height {
                PendingV { height, ..no_votes() }
            } else {
                held
            };
            if !verified && set.verified.contains(att.member) {
                self
            } else {
                StateV {
                    pending_sigs: table::put(
                        self.pending_sigs,
                        id,
                        PendingV {
                            height: set.height,
                            sigs: votes::sigs_without(set.sigs, att.member).push(att),
                            verified: votes::names_without(set.verified, att.member),
                        },
                    ),
                    ..self
                }
            }
        }
    }

    /// That member's signature for `id` marked as verified.
    pub open spec fn marking(self, id: u64, member: Seq<char>) -> StateV {
        match table::get(self.pending_sigs, id) {
            Some(p) => StateV {
                pending_sigs: table::put(
                    self.pending_sigs,
                    id,
                    PendingV { verified: text::insert_name(p.verified, member), ..p },
                ),
                ..self
            },
            None => self,
        }
    }

    /// Does this signature approve `id` at the next height?
    pub open spec fn approves(self, id: u64, height: u64, att: AttestationV) -> bool {
        &&& self.target() == Some(height)
        &&& self.change_for(id) is Some
        &&& votes::vouched(
            self.head->0.identities,
            canonical::approval_bytes_of(self.rid(), height, self.change_for(id)->0),
            att.member,
            att.sig,
        )
    }

    /// The members whose signature is verified once the ones not checked yet
    /// are checked.
    pub open spec fn rechecked(
        self,
        id: u64,
        height: u64,
        verified: Seq<Seq<char>>,
        sigs: Seq<AttestationV>,
    ) -> Seq<Seq<char>>
        decreases sigs.len(),
    {
        if sigs.len() == 0 {
            verified
        } else {
            let rest = self.rechecked(id, height, verified, sigs.drop_last());
            if !rest.contains(sigs.last().member) && self.approves(id, height, sigs.last()) {
                text::insert_name(rest, sigs.last().member)
            } else {
                rest
            }
        }
    }

    /// The signatures that outran their proposal checked again.
    pub open spec fn reverifying(self, id: u64) -> StateV {
        match table::get(self.pending_sigs, id) {
            Some(p) => StateV {
                pending_sigs: table::put(
                    self.pending_sigs,
                    id,
                    PendingV { verified: self.rechecked(id, p.height, p.verified, p.sigs), ..p },
                ),
                ..self
            },
            None => self,
        }
    }

    /// Who declines a proposal at present.
    pub open spec fn decliners_of(self, id: u64) -> Seq<Seq<char>> {
        match table::get(self.proposals, id) {
            Some(p) => p.decliners,
            None => Seq::empty(),
        }
    }

    /// The block that the collected signatures seal for `id`, if they do.
    pub open spec fn sealable(self, id: u64) -> Option<BlockV> {
        match (self.target(), self.change_for(id), table::get(self.pending_sigs, id)) {
            (Some(target), Some(change), Some(p)) => if (self.card_state(id) is Some
                && self.card_state(id) != Some(ProposalState::Proposed)) || p.height != target {
                None
            } else {
                match votes::quorum(
                    change,
                    votes::counted_votes(
                        self.head->0.identities,
                        canonical::approval_bytes_of(self.rid(), target, change),
                        self.decliners_of(id),
                        p.sigs,
                    ),
                    self.head->0.rule_m as nat,
                ) {
                    None => None,
                    Some(sigs) => Some(
                        BlockV { height: target, prev: self.head->0.hash, change, sigs },
                    ),
                }
            },
            _ => None,
        }
    }

    /// Is an id from the wire within reach of the mint counter?
    pub open spec fn plausible(self, id: u64) -> bool {
        id <= self.next_id + PARKED_DECLINE_ID_WINDOW || self.next_id + PARKED_DECLINE_ID_WINDOW
            > u64::MAX
    }

    /// The mint counter kept past `id`.
    pub open spec fn minting_past(self, id: u64) -> StateV {
        StateV { next_id: state::larger(self.next_id, state::after(id)), ..self }
    }

    /// Did the verified chain consume that proposal?
    pub open spec fn consumed(self, id: u64) -> bool {
        self.walk is Some && self.walk->0.seen.contains(id)
    }

    /// Is there no room for one more card of that proposer?
    pub open spec fn crowded(self, id: u64, by: Seq<char>) -> bool {
        !table::has(self.proposals, id) && open_cards_by(self.proposals, by)
            >= OPEN_CARDS_PER_PROPOSER_MAX
    }

    /// Is a proposal from the wire new here?
    pub open spec fn takes_proposed(self, id: u64, by: Seq<char>) -> bool {
        &&& self.plausible(id)
        &&& !self.crowded(id, by)
        &&& !table::has(self.proposal_changes, id)
        &&& !self.consumed(id)
        &&& !table::has(self.proposals, id)
    }

    /// A proposal taken from the wire.
    pub open spec fn proposed_here(
        self,
        id: u64,
        surface: Surface,
        payload: PayloadV,
        by: Seq<char>,
    ) -> StateV {
        if !self.plausible(id) || self.crowded(id, by) {
            self
        } else if !self.takes_proposed(id, by) {
            self.minting_past(id)
        } else {
            let minted = self.minting_past(id);
            let carded = StateV {
                proposals: table::put(minted.proposals, id, open_card(surface, payload, by)),
                ..minted
            };
            let moved = if surface == Surface::Memory {
                carded.base_moved(None, None)
            } else {
                carded
            };
            moved.reverifying(id)
        }
    }

    /// The cards of those ids applied, each announced.
    pub open spec fn cards_applied(self, ids: Seq<u64>) -> StateV
        decreases ids.len(),
    {
        if ids.len() == 0 {
            self
        } else {
            let rest = self.cards_applied(ids.drop_last());
            rest.card_applied(ids.last()).emitting(
                EventV::Applied { id: ids.last(), surface: Surface::Organization },
            )
        }
    }

    /// The card of that id applied, if there is one.
    pub open spec fn card_applied(self, id: u64) -> StateV {
        match table::get(self.proposals, id) {
            Some(p) => StateV {
                proposals: table::put(
                    self.proposals,
                    id,
                    RecordV { state: ProposalState::Applied, ..p },
                ),
                ..self
            },
            None => self,
        }
    }

    /// A sealed membership change settled: its open cards applied and its
    /// votes forgotten. It is found by its content, as its block carries no
    /// proposal id.
    pub open spec fn membership_settled(self, sealed: ChangeV) -> StateV {
        match sealed {
            ChangeV::Membership { op, member, .. } => self.cards_applied(
                open_cards_of(self.proposals, op, member),
            ).forgetting_change(sealed),
            _ => self,
        }
    }
}

impl State {
    /// Is this republic governed through its chain?
    pub fn is_chain_governed(&self) -> (r: bool)
        ensures
            r == (self.deep_view().head is Some),
    {
        self.head.is_some()
    }

    /// The change that a proposal would enact.
    pub fn proposal_change(&self, id: u64) -> (r: Option<ChainChange>)
        ensures
            r.deep_view() == self.deep_view().change_for(id),
    {
        match self.proposal_changes.get(id) {
            Some(change) => Some(change.clone()),
            None => match self.proposals.get(id) {
                None => None,
                Some(p) => {
                    if p.payload.has_op("restore_member") || p.payload.has_op("add_member") {
                        None
                    } else {
                        Some(
                            ChainChange::Applied {
                                proposal_id: id,
                                surface: p.surface,
                                payload: p.payload.clone(),
                            },
                        )
                    }
                },
            },
        }
    }

    /// May `id` register `change`?
    pub fn id_free_for(&self, id: u64, change: &ChainChange) -> (r: bool)
        ensures
            r == self.deep_view().id_free(id, change.deep_view()),
    {
        match self.proposal_changes.get(id) {
            Some(existing) => same_value(existing, change),
            None => match self.proposals.get(id) {
                None => true,
                Some(p) => match change {
                    ChainChange::Membership { op, member, .. } => wears_change(
                        p,
                        *op,
                        member.as_str(),
                    ),
                    _ => false,
                },
            },
        }
    }

    /// How many members' signatures for a proposal verified here.
    pub fn chain_approval_count(&self, id: u64) -> (r: usize)
        ensures
            r == self.deep_view().approval_count(id),
    {
        match self.pending_sigs.get(id) {
            Some(p) => p.verified.len(),
            None => 0,
        }
    }

    /// The height that the next block will have.
    pub fn target_height(&self) -> (r: Option<u64>)
        ensures
            r == self.deep_view().target(),
    {
        match &self.head {
            Some(h) => {
                if h.height < u64::MAX {
                    Some(h.height + 1)
                } else {
                    None
                }
            },
            None => None,
        }
    }

    /// Does this holder's own signature for `id` stand at the next height?
    pub fn own_signature_stands(&self, id: u64) -> (r: bool)
        ensures
            r == self.deep_view().own_stands(id),
    {
        let target = match self.target_height() {
            Some(t) => t,
            None => {
                return false;
            },
        };
        match self.pending_sigs.get(id) {
            Some(p) => {
                let me = self.member();
                p.height == target && has_signed(&p.sigs, me.as_str())
            },
            None => false,
        }
    }

    /// Keeps the voters heard so far on the card.
    pub fn stash_voted(&mut self, id: u64)
        ensures
            final(self).deep_view() == old(self).deep_view().stashing(id),
    {
        let sigs: Vec<RosterAttestation> = match self.pending_sigs.get(id) {
            Some(p) => p.sigs.clone(),
            None => {
                return;
            },
        };
        if sigs.len() == 0 {
            return;
        }
        match self.proposals.get(id) {
            Some(p) => {
                let mut card = p.clone();
                hear_voices(&mut card.voted, &sigs);
                self.proposals.insert(id, card);
            },
            None => {},
        }
    }

    /// Forgets the vote of a decided proposal; its voters stay on the card.
    pub fn forget_vote(&mut self, id: u64)
        ensures
            final(self).deep_view() == old(self).deep_view().forgetting(id),
    {
        self.stash_voted(id);
        self.pending_sigs.remove(id);
        self.proposal_changes.remove(id);
    }

    /// Forgets every vote on exactly this change.
    pub fn forget_votes_for(&mut self, sealed: &ChainChange)
        ensures
            final(self).deep_view() == old(self).deep_view().forgetting_change(sealed.deep_view()),
    {
        let ids = registered_ids(&self.proposal_changes, sealed);
        let ghost start = self.deep_view();
        let mut i: usize = 0;
        assert(ids@.take(0) =~= Seq::empty());
        while i < ids.len()
            invariant
                i <= ids.len(),
                start == old(self).deep_view(),
                self.deep_view() == start.forgetting_each(ids@.take(i as int)),
            decreases ids.len() - i,
        {
            assert(ids@.take(i + 1).drop_last() =~= ids@.take(i as int));
            self.forget_vote(ids[i]);
            i = i + 1;
        }
        assert(ids@.take(i as int) =~= ids@);
    }

    /// Collects one signature for a proposal. `verified` is the caller's
    /// verdict on it.
    pub fn collect_sig(&mut self, id: u64, height: u64, member: &str, sig: &str, verified: bool)
        ensures
            final(self).deep_view() == old(self).deep_view().collecting(
                id,
                height,
                (AttestationV { member: member@, sig: sig@ }),
                verified,
            ),
    {
        match self.proposals.get(id) {
            Some(p) => {
                if p.state != ProposalState::Proposed {
                    return;
                }
            },
            None => {},
        }
        match &self.head {
            Some(h) => {
                if !is_seated(&h.identities, member) {
                    return;
                }
            },
            None => {
                return;
            },
        }
        let me = self.member();
        if !verified && same_text(member, me.as_str()) {
            return;
        }
        let mut set: PendingApproval = match self.pending_sigs.get(id) {
            Some(p) => p.clone(),
            None => PendingApproval { height: 0, sigs: Vec::new(), verified: Vec::new() },
        };
        proof {
            assert(set.deep_view().sigs =~= self.deep_view().held(id).sigs);
            assert(set.deep_view().verified =~= self.deep_view().held(id).verified);
            assert(set.deep_view() == self.deep_view().held(id));
        }
        if height < set.height {
            return;
        }
        if height > set.height {
            set = PendingApproval { height, sigs: Vec::new(), verified: Vec::new() };
            assert(set.sigs.deep_view() =~= Seq::empty());
            assert(set.verified.deep_view() =~= Seq::empty());
        }
        if !verified && has_name(&set.verified, member) {
            return;
        }
        let mut sigs = drop_sigs(&set.sigs, member);
        let ghost others = sigs.deep_view();
        let verified_names = drop_name(&set.verified, member);
        let att = RosterAttestation { member: member.to_owned(), sig: sig.to_owned() };
        sigs.push(att);
        assert(sigs.deep_view() =~= others.push(att.deep_view()));
        self.pending_sigs.insert(
            id,
            PendingApproval { height: set.height, sigs, verified: verified_names },
        );
    }

    /// Marks that member's signature for `id` as verified.
    pub fn mark_verified(&mut self, id: u64, member: &String)
        ensures
            final(self).deep_view() == old(self).deep_view().marking(id, member@),
    {
        match self.pending_sigs.get(id) {
            Some(p) => {
                let mut set = p.clone();
                add_name(&mut set.verified, member);
                self.pending_sigs.insert(id, set);
            },
            None => {},
        }
    }

    /// Does this signature approve `id` at the next height?
    pub fn approval_verifies(&self, id: u64, height: u64, member: &str, sig: &str) -> (r: bool)
        ensures
            r == self.deep_view().approves(
                id,
                height,
                (AttestationV { member: member@, sig: sig@ }),
            ),
    {
        let target = match self.target_height() {
            Some(t) => t,
            None => {
                return false;
            },
        };
        if height != target {
            return false;
        }
        let change = match self.proposal_change(id) {
            Some(c) => c,
            None => {
                return false;
            },
        };
        let rid = self.republic_id();
        let bytes = approval_bytes(rid.as_str(), height, &change);
        match &self.head {
            Some(h) => seat_vouches(&h.identities, &bytes, member, sig),
            None => false,
        }
    }

    /// Checks the signatures that outran their proposal again.
    pub fn reverify_pending(&mut self, id: u64)
        ensures
            final(self).deep_view() == old(self).deep_view().reverifying(id),
    {
        let mut set: PendingApproval = match self.pending_sigs.get(id) {
            Some(p) => p.clone(),
            None => {
                return;
            },
        };
        let ghost start = set.deep_view();
        let ghost all = start.sigs;
        let mut i: usize = 0;
        assert(all.take(0) =~= Seq::empty());
        while i < set.sigs.len()
            invariant
                i <= set.sigs.len(),
                all == set.sigs.deep_view(),
                self.deep_view() == old(self).deep_view(),
                start.sigs == all,
                start.height == set.height,
                set.verified.deep_view() == self.deep_view().rechecked(
                    id,
                    start.height,
                    start.verified,
                    all.take(i as int),
                ),
            decreases set.sigs.len() - i,
        {
            proof {
                assert(all.take(i + 1).drop_last() =~= all.take(i as int));
                assert(all.take(i + 1).last() == set.sigs@[i as int].deep_view());
            }
            if !has_name(&set.verified, set.sigs[i].member.as_str()) && self.approval_verifies(
                id,
                set.height,
                set.sigs[i].member.as_str(),
                set.sigs[i].sig.as_str(),
            ) {
                let member = set.sigs[i].member.clone();
                add_name(&mut set.verified, &member);
            }
            i = i + 1;
        }
        assert(all.take(i as int) =~= all);
        self.pending_sigs.insert(id, set);
    }

    /// The block that the collected signatures seal for `id`, if they do. It
    /// is the same on every holder that has the signatures: the lowest-named
    /// voices are chosen.
    pub fn sealable_block(&self, id: u64) -> (r: Option<ChainBlock>)
        ensures
            r.deep_view() == self.deep_view().sealable(id),
    {
        let target = match self.target_height() {
            Some(t) => t,
            None => {
                return None;
            },
        };
        let mut decliners: Vec<String> = Vec::new();
        assert(decliners.deep_view() =~= Seq::empty());
        match self.proposals.get(id) {
            Some(p) => {
                if p.state != ProposalState::Proposed {
                    return None;
                }
                decliners = p.decliners.clone();
            },
            None => {},
        }
        let change = match self.proposal_change(id) {
            Some(c) => c,
            None => {
                return None;
            },
        };
        let rid = self.republic_id();
        let bytes = approval_bytes(rid.as_str(), target, &change);
        match (self.pending_sigs.get(id), &self.head) {
            (Some(p), Some(head)) => {
                if p.height != target {
                    return None;
                }
                let counted = count_votes(&head.identities, &bytes, &decliners, &p.sigs);
                match reach_quorum(&change, counted, head.rule_m) {
                    None => None,
                    Some(sigs) => Some(
                        ChainBlock { height: target, prev: head.hash.clone(), change, sigs },
                    ),
                }
            },
            _ => None,
        }
    }

    /// Is an id from the wire within reach of the mint counter?
    pub fn plausible_wire_id(&self, id: u64) -> (r: bool)
        ensures
            r == self.deep_view().plausible(id),
    {
        if self.next_id > u64::MAX - PARKED_DECLINE_ID_WINDOW {
            true
        } else {
            id <= self.next_id + PARKED_DECLINE_ID_WINDOW
        }
    }

    /// Keeps the mint counter past `id`.
    pub fn mint_past(&mut self, id: u64)
        ensures
            final(self).deep_view() == old(self).deep_view().minting_past(id),
    {
        let past = next_after(id);
        if past > self.next_id {
            self.next_id = past;
        }
    }

    /// Did the verified chain consume that proposal?
    pub fn chain_consumed(&self, id: u64) -> (r: bool)
        ensures
            r == self.deep_view().consumed(id),
    {
        broadcast use vstd::std_specs::btree::group_btree_axioms;

        match &self.walk {
            Some(w) => w.seen.contains(&id),
            None => false,
        }
    }

    /// Takes a proposal from the wire. Returns whether it was new here.
    pub fn receive_proposed(&mut self, id: u64, surface: Surface, payload: Payload, by: &str) -> (r:
        bool)
        ensures
            final(self).deep_view() == old(self).deep_view().proposed_here(
                id,
                surface,
                payload.deep_view(),
                by@,
            ),
            r == old(self).deep_view().takes_proposed(id, by@),
    {
        if !self.plausible_wire_id(id) {
            return false;
        }
        if !self.proposals.contains_key(id) && count_open_cards(&self.proposals, by)
            >= OPEN_CARDS_PER_PROPOSER_MAX {
            return false;
        }
        self.mint_past(id);
        if self.proposal_changes.contains_key(id) || self.chain_consumed(id)
            || self.proposals.contains_key(id) {
            return false;
        }
        let card = new_card(surface, payload, ProposalState::Proposed, by.to_owned());
        self.proposals.insert(id, card);
        if surface == Surface::Memory {
            self.move_base(None, None);
        }
        self.reverify_pending(id);
        true
    }

    /// Settles a sealed membership change on this holder.
    pub fn settle_membership_records(&mut self, sealed: &ChainChange)
        ensures
            final(self).deep_view() == old(self).deep_view().membership_settled(
                sealed.deep_view(),
            ),
    {
        match sealed {
            ChainChange::Membership { op, member, .. } => {
                let ids = find_open_cards(&self.proposals, *op, member.as_str());
                let ghost start = self.deep_view();
                let mut i: usize = 0;
                assert(ids@.take(0) =~= Seq::empty());
                while i < ids.len()
                    invariant
                        i <= ids.len(),
                        start == old(self).deep_view(),
                        self.deep_view() == start.cards_applied(ids@.take(i as int)),
                    decreases ids.len() - i,
                {
                    assert(ids@.take(i + 1).drop_last() =~= ids@.take(i as int));
                    self.apply_card(ids[i]);
                    self.emit(Event::Applied { id: ids[i], surface: Surface::Organization });
                    i = i + 1;
                }
                assert(ids@.take(i as int) =~= ids@);
                self.forget_votes_for(sealed);
            },
            _ => {},
        }
    }

    /// Marks the card of that id applied, if there is one.
    pub fn apply_card(&mut self, id: u64)
        ensures
            final(self).deep_view() == old(self).deep_view().card_applied(id),
    {
        match self.proposals.get(id) {
            Some(p) => {
                let mut card = p.clone();
                card.state = ProposalState::Applied;
                self.proposals.insert(id, card);
            },
            None => {},
        }
    }
}

} // verus!
