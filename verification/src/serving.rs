//! What a catching-up member is told of the open votes.

use crate::canonical;
use crate::canonical::put_payload;
use crate::identity;
use crate::identity::content_hash;
use crate::model::{AttestationV, ChainChange};
use crate::payload::{Payload, PayloadV};
use crate::state;
use crate::state::{
    aged_out_at, ParkedDecline, ParkedV, PendingApproval, PendingV, ProposalState, RecordV, State,
    StateV, WireV, WorkspaceEvent,
};
use crate::table;
use crate::text;
use crate::text::{has_name, same_text, text_before};
use vstd::prelude::*;
use vstd::string::*;

verus! {

/// A decline of this holder: the proposal, and the hash of what was declined.
#[derive(Debug, PartialEq, Eq)]
pub struct OwnDecline {
    pub id: u64,
    pub hash: String,
}

/// The model of [`OwnDecline`].
pub struct DeclineV {
    pub id: u64,
    pub hash: Seq<char>,
}

impl DeepView for OwnDecline {
    type V = DeclineV;

    open spec fn deep_view(&self) -> DeclineV {
        DeclineV { id: self.id, hash: self.hash@ }
    }
}

/// The hash that binds a decline to the payload it declines.
pub open spec fn decline_hash_of(payload: PayloadV) -> Seq<char> {
    identity::hash_text(canonical::payload_bytes(payload))
}

/// The hash that binds a decline to the payload it declines.
pub fn decline_payload_hash(payload: &Payload) -> (r: String)
    ensures
        r@ == decline_hash_of(payload.deep_view()),
{
    let mut bytes: Vec<u8> = Vec::new();
    put_payload(&mut bytes, payload);
    assert(bytes@ =~= canonical::payload_bytes(payload.deep_view()));
    content_hash(bytes.as_slice())
}

/// Does one decline come before another: by proposal, then by hash?
pub open spec fn decline_before(a: DeclineV, b: DeclineV) -> bool {
    a.id < b.id || (a.id == b.id && text::before(a.hash, b.hash))
}

/// The declines in order with one more, each once.
pub open spec fn decline_placed(list: Seq<DeclineV>, d: DeclineV) -> Seq<DeclineV>
    decreases list.len(),
{
    if list.len() == 0 {
        seq![d]
    } else if list.last() == d {
        list
    } else if decline_before(d, list.last()) {
        decline_placed(list.drop_last(), d).push(list.last())
    } else {
        list.push(d)
    }
}

/// Puts a decline into its place, once.
pub fn place_decline(list: &mut Vec<OwnDecline>, d: OwnDecline)
    ensures
        final(list).deep_view() == decline_placed(old(list).deep_view(), d.deep_view()),
{
    let ghost all = list.deep_view();
    let ghost v = d.deep_view();
    let mut at: usize = list.len();
    proof {
        assert(all.take(at as int) =~= all);
        assert(all.skip(at as int) =~= Seq::empty());
        assert(decline_placed(all, v) + Seq::<DeclineV>::empty() =~= decline_placed(all, v));
    }
    let mut placed = false;
    while at > 0 && !placed
        invariant
            at <= list.len(),
            list.deep_view() == all,
            v == d.deep_view(),
            all == old(list).deep_view(),
            decline_placed(all, v) == decline_placed(all.take(at as int), v) + all.skip(at as int),
            placed ==> {
                &&& at > 0
                &&& all[at - 1] != v
                &&& !decline_before(v, all[at - 1])
            },
        decreases at + (if placed { 0int } else { 1int }),
    {
        proof {
            assert(all[at - 1] == list@[at - 1].deep_view());
            assert(all.take(at as int).last() == all[at - 1]);
            assert(all.take(at as int).drop_last() =~= all.take(at - 1));
        }
        let other = &list[at - 1];
        if other.id == d.id && same_text(other.hash.as_str(), d.hash.as_str()) {
            assert(all.take(at as int) + all.skip(at as int) =~= all);
            return;
        }
        if d.id < other.id || (d.id == other.id && text_before(d.hash.as_str(), other.hash.as_str()))
        {
            proof {
                assert(decline_placed(all.take(at - 1), v).push(all[at - 1]) + all.skip(at as int)
                    =~= decline_placed(all.take(at - 1), v) + all.skip(at - 1));
            }
            at = at - 1;
        } else {
            placed = true;
        }
    }
    list.insert(at, d);
    proof {
        assert(list.deep_view() =~= all.take(at as int).push(v) + all.skip(at as int));
        if at == 0 {
            assert(all.take(0) =~= Seq::empty());
            assert(decline_placed(Seq::<DeclineV>::empty(), v) =~= seq![v]);
            assert(Seq::<DeclineV>::empty().push(v) =~= seq![v]);
        } else {
            assert(all.take(at as int).last() == all[at - 1]);
        }
    }
}

/// The verified signatures among `sigs` as they travel.
pub open spec fn approvals_told(id: u64, pending: PendingV, sigs: Seq<AttestationV>) -> Seq<WireV>
    decreases sigs.len(),
{
    if sigs.len() == 0 {
        Seq::empty()
    } else {
        let rest = approvals_told(id, pending, sigs.drop_last());
        if pending.verified.contains(sigs.last().member) {
            rest.push(
                WireV::Approved {
                    id,
                    by: sigs.last().member,
                    height: pending.height,
                    sig: sigs.last().sig,
                },
            )
        } else {
            rest
        }
    }
}

/// The parked voice of that member, if there is one.
pub open spec fn parked_voice(parked: Seq<ParkedV>, member: Seq<char>) -> Option<Seq<char>>
    decreases parked.len(),
{
    if parked.len() == 0 {
        None
    } else if parked[0].member == member {
        Some(parked[0].hash)
    } else {
        parked_voice(parked.skip(1), member)
    }
}

/// The parked voice of that member, if there is one.
pub fn find_parked(parked: &Vec<ParkedDecline>, member: &str) -> (r: Option<String>)
    ensures
        r.deep_view() == parked_voice(parked.deep_view(), member@),
{
    let ghost all = parked.deep_view();
    let mut i: usize = 0;
    assert(all.skip(0) =~= all);
    while i < parked.len()
        invariant
            i <= parked.len(),
            all == parked.deep_view(),
            parked_voice(all, member@) == parked_voice(all.skip(i as int), member@),
        decreases parked.len() - i,
    {
        assert(all.skip(i as int)[0] == parked@[i as int].deep_view());
        if same_text(parked[i].member.as_str(), member) {
            return Some(parked[i].hash.clone());
        }
        assert(all.skip(i as int).skip(1) =~= all.skip(i + 1));
        i = i + 1;
    }
    None
}

impl StateV {
    /// Does this id name a membership change?
    pub open spec fn names_membership(self, id: u64) -> bool {
        table::get(self.proposal_changes, id) is Some && table::get(self.proposal_changes, id)->0
            is Membership
    }

    /// The open cards and their verified signatures as they travel. A
    /// membership card stays out: as a plain proposal it would be signed over
    /// other bytes.
    pub open spec fn cards_told(self, cards: Seq<(u64, RecordV)>) -> Seq<WireV>
        decreases cards.len(),
    {
        if cards.len() == 0 {
            Seq::empty()
        } else {
            let rest = self.cards_told(cards.drop_last());
            let id = cards.last().0;
            let p = cards.last().1;
            if p.state != ProposalState::Proposed || self.names_membership(id) {
                rest
            } else {
                let card = rest.push(WireV::Proposed { id, surface: p.surface, payload: p.payload });
                match table::get(self.pending_sigs, id) {
                    Some(pending) => card + approvals_told(id, pending, pending.sigs),
                    None => card,
                }
            }
        }
    }

    /// This holder's own withdrawals that some view still shows.
    pub open spec fn withdrawals_told(self, cards: Seq<(u64, RecordV)>) -> Seq<WireV>
        decreases cards.len(),
    {
        if cards.len() == 0 {
            Seq::empty()
        } else {
            let rest = self.withdrawals_told(cards.drop_last());
            let p = cards.last().1;
            if p.withdrawn && p.by == self.me() && p.declined_at >= self.retention_cutoff {
                rest.push(WireV::Withdrawn { id: cards.last().0, by: self.me() })
            } else {
                rest
            }
        }
    }

    /// Is this holder's decline of that card still to be told? For an open
    /// card it is; for a rejected one while some view still shows it.
    pub open spec fn tells_decline(self, id: u64, p: RecordV) -> bool {
        &&& !self.names_membership(id)
        &&& p.decliners.contains(self.me())
        &&& (p.state == ProposalState::Proposed || (p.state == ProposalState::Rejected
            && !state::aged_out(self.retention_cutoff, p.declined_at)))
    }

    /// This holder's declines of cards, in order.
    pub open spec fn card_declines(self, cards: Seq<(u64, RecordV)>) -> Seq<DeclineV>
        decreases cards.len(),
    {
        if cards.len() == 0 {
            Seq::empty()
        } else {
            let rest = self.card_declines(cards.drop_last());
            let id = cards.last().0;
            if self.tells_decline(id, cards.last().1) {
                decline_placed(rest, DeclineV { id, hash: decline_hash_of(cards.last().1.payload) })
            } else {
                rest
            }
        }
    }

    /// Further declines of this holder that wait for their card, in order. A
    /// parked voice is told with the hash it came with.
    pub open spec fn parked_declines(
        self,
        base: Seq<DeclineV>,
        parked: Seq<(u64, Seq<ParkedV>)>,
    ) -> Seq<DeclineV>
        decreases parked.len(),
    {
        if parked.len() == 0 {
            base
        } else {
            let rest = self.parked_declines(base, parked.drop_last());
            match parked_voice(parked.last().1, self.me()) {
                Some(hash) => decline_placed(rest, DeclineV { id: parked.last().0, hash }),
                None => rest,
            }
        }
    }

    /// Those declines as they travel.
    pub open spec fn declines_told(self, declines: Seq<DeclineV>) -> Seq<WireV> {
        Seq::new(
            declines.len(),
            |i: int|
                WireV::Declined { id: declines[i].id, by: self.me(), hash: declines[i].hash },
        )
    }

    /// What a catching-up member is told of the open votes: the open cards
    /// with their verified signatures, then this holder's own withdrawals and
    /// its own declines. A decline carries no signature, so nobody else's is
    /// ever passed on.
    pub open spec fn open_governance(self) -> Seq<WireV> {
        self.cards_told(self.proposals) + self.withdrawals_told(self.proposals)
            + self.declines_told(
            self.parked_declines(self.card_declines(self.proposals), self.pending_declines),
        )
    }

    /// Several events recorded, in order.
    pub open spec fn recording_each(self, bodies: Seq<WireV>) -> StateV
        decreases bodies.len(),
    {
        if bodies.len() == 0 {
            self
        } else {
            self.recording_each(bodies.drop_last()).recording(bodies.last())
        }
    }
}

impl State {
    /// Does this id name a membership change?
    pub fn names_membership(&self, id: u64) -> (r: bool)
        ensures
            r == self.deep_view().names_membership(id),
    {
        match self.proposal_changes.get(id) {
            Some(ChainChange::Membership { .. }) => true,
            _ => false,
        }
    }

    /// Appends the verified signatures for `id` as they travel.
    fn tell_approvals(out: &mut Vec<WorkspaceEvent>, id: u64, pending: &PendingApproval)
        ensures
            final(out).deep_view() == old(out).deep_view() + approvals_told(
                id,
                pending.deep_view(),
                pending.deep_view().sigs,
            ),
    {
        let ghost all = pending.sigs.deep_view();
        let ghost pv = pending.deep_view();
        let ghost start = out.deep_view();
        let mut i: usize = 0;
        assert(all.take(0) =~= Seq::empty());
        assert(start + approvals_told(id, pv, all.take(0)) =~= start);
        while i < pending.sigs.len()
            invariant
                i <= pending.sigs.len(),
                all == pending.sigs.deep_view(),
                pv == pending.deep_view(),
                start == old(out).deep_view(),
                out.deep_view() == start + approvals_told(id, pv, all.take(i as int)),
            decreases pending.sigs.len() - i,
        {
            let att = &pending.sigs[i];
            let ghost done = out.deep_view();
            let ghost told = approvals_told(id, pv, all.take(i as int));
            proof {
                assert(all.take(i + 1).drop_last() =~= all.take(i as int));
                assert(all.take(i + 1).last() == att.deep_view());
            }
            if has_name(&pending.verified, att.member.as_str()) {
                let event = WorkspaceEvent::Approved {
                    id,
                    by: att.member.clone(),
                    height: pending.height,
                    sig: att.sig.clone(),
                };
                out.push(event);
                proof {
                    assert(out.deep_view() =~= done.push(event.deep_view()));
                    assert(done.push(event.deep_view()) =~= start + told.push(event.deep_view()));
                }
            }
            i = i + 1;
        }
        assert(all.take(i as int) =~= all);
    }

    /// What a catching-up member is told of the open votes.
    pub fn open_governance_events(&self) -> (r: Vec<WorkspaceEvent>)
        ensures
            r.deep_view() == self.deep_view().open_governance(),
    {
        let ghost s = self.deep_view();
        let ghost cards = s.proposals;
        let me = self.member();
        let mut events: Vec<WorkspaceEvent> = Vec::new();
        let mut withdrawn: Vec<WorkspaceEvent> = Vec::new();
        let mut declines: Vec<OwnDecline> = Vec::new();
        let mut i: usize = 0;
        proof {
            assert(cards.take(0) =~= Seq::empty());
            assert(events.deep_view() =~= Seq::empty());
            assert(withdrawn.deep_view() =~= Seq::empty());
            assert(declines.deep_view() =~= Seq::empty());
        }
        let rows = self.proposals.rows();
        while i < rows.len()
            invariant
                i <= rows.len(),
                s == self.deep_view(),
                cards == s.proposals,
                cards == rows.deep_view(),
                me@ == s.me(),
                events.deep_view() == s.cards_told(cards.take(i as int)),
                withdrawn.deep_view() == s.withdrawals_told(cards.take(i as int)),
                declines.deep_view() == s.card_declines(cards.take(i as int)),
            decreases rows.len() - i,
        {
            let id: u64 = rows[i].key;
            let p = rows[i].value;
            proof {
                assert(cards.take(i + 1).drop_last() =~= cards.take(i as int));
                assert(cards.take(i + 1).last() == rows@[i as int].deep_view());
            }
            let ghost done = events.deep_view();
            if p.state == ProposalState::Proposed && !self.names_membership(id) {
                let event = WorkspaceEvent::Proposed {
                    id,
                    surface: p.surface,
                    payload: p.payload.clone(),
                };
                events.push(event);
                assert(events.deep_view() =~= done.push(event.deep_view()));
                match self.pending_sigs.get(id) {
                    Some(pending) => {
                        Self::tell_approvals(&mut events, id, pending);
                    },
                    None => {},
                }
            }
            let ghost gone = withdrawn.deep_view();
            if p.withdrawn && same_text(p.by.as_str(), me.as_str()) && p.declined_at
                >= self.retention_cutoff {
                let event = WorkspaceEvent::Withdrawn { id, by: me.clone() };
                withdrawn.push(event);
                assert(withdrawn.deep_view() =~= gone.push(event.deep_view()));
            }
            if !self.names_membership(id) && has_name(&p.decliners, me.as_str()) && (p.state
                == ProposalState::Proposed || (p.state == ProposalState::Rejected && !aged_out_at(
                self.retention_cutoff,
                p.declined_at,
            ))) {
                let hash = decline_payload_hash(&p.payload);
                place_decline(&mut declines, OwnDecline { id, hash });
            }
            i = i + 1;
        }
        assert(cards.take(i as int) =~= cards);
        let ghost parked = s.pending_declines;
        let ghost base = declines.deep_view();
        let mut j: usize = 0;
        assert(parked.take(0) =~= Seq::empty());
        let held = self.pending_declines.rows();
        while j < held.len()
            invariant
                j <= held.len(),
                s == self.deep_view(),
                parked == s.pending_declines,
                parked == held.deep_view(),
                me@ == s.me(),
                declines.deep_view() == s.parked_declines(base, parked.take(j as int)),
            decreases held.len() - j,
        {
            proof {
                assert(parked.take(j + 1).drop_last() =~= parked.take(j as int));
                assert(parked.take(j + 1).last()
                    == held@[j as int].deep_view());
            }
            match find_parked(held[j].value, me.as_str()) {
                Some(hash) => {
                    place_decline(
                        &mut declines,
                        OwnDecline { id: held[j].key, hash },
                    );
                },
                None => {},
            }
            j = j + 1;
        }
        assert(parked.take(j as int) =~= parked);
        let ghost cards_part = events.deep_view();
        let ghost gone_part = withdrawn.deep_view();
        let mut w: usize = 0;
        assert(cards_part + gone_part.take(0) =~= cards_part);
        while w < withdrawn.len()
            invariant
                w <= withdrawn.len(),
                gone_part == withdrawn.deep_view(),
                events.deep_view() == cards_part + gone_part.take(w as int),
            decreases withdrawn.len() - w,
        {
            let ghost done = events.deep_view();
            let event = withdrawn[w].clone();
            events.push(event);
            proof {
                assert(event.deep_view() == gone_part[w as int]);
                assert(events.deep_view() =~= done.push(event.deep_view()));
                assert(done.push(event.deep_view()) =~= cards_part + gone_part.take(w + 1));
            }
            w = w + 1;
        }
        assert(gone_part.take(w as int) =~= gone_part);
        let ghost front = events.deep_view();
        let ghost told = s.declines_told(declines.deep_view());
        let mut d: usize = 0;
        assert(front + told.take(0) =~= front);
        while d < declines.len()
            invariant
                d <= declines.len(),
                me@ == s.me(),
                told == s.declines_told(declines.deep_view()),
                told.len() == declines.len(),
                events.deep_view() == front + told.take(d as int),
            decreases declines.len() - d,
        {
            let ghost done = events.deep_view();
            let event = WorkspaceEvent::Declined {
                id: declines[d].id,
                by: me.clone(),
                hash: declines[d].hash.clone(),
            };
            events.push(event);
            proof {
                assert(declines.deep_view()[d as int] == declines@[d as int].deep_view());
                assert(event.deep_view() == told[d as int]);
                assert(events.deep_view() =~= done.push(event.deep_view()));
                assert(done.push(event.deep_view()) =~= front + told.take(d + 1));
            }
            d = d + 1;
        }
        assert(told.take(d as int) =~= told);
        events
    }

    /// Records several events, in order.
    pub fn record_each(&mut self, bodies: &Vec<WorkspaceEvent>)
        ensures
            final(self).deep_view() == old(self).deep_view().recording_each(bodies.deep_view()),
    {
        let ghost start = self.deep_view();
        let ghost all = bodies.deep_view();
        let mut i: usize = 0;
        assert(all.take(0) =~= Seq::empty());
        while i < bodies.len()
            invariant
                i <= bodies.len(),
                start == old(self).deep_view(),
                all == bodies.deep_view(),
                self.deep_view() == start.recording_each(all.take(i as int)),
            decreases bodies.len() - i,
        {
            proof {
                assert(all.take(i + 1).drop_last() =~= all.take(i as int));
                assert(all.take(i + 1).last() == bodies@[i as int].deep_view());
            }
            self.record(bodies[i].clone());
            i = i + 1;
        }
        assert(all.take(i as int) =~= all);
    }

    /// Answers a catch-up request with the open votes. Hearing the same again
    /// changes nothing on a holder that has it.
    pub fn serve_open_governance(&mut self)
        ensures
            final(self).deep_view() == old(self).deep_view().recording_each(
                old(self).deep_view().open_governance(),
            ),
    {
        let events = self.open_governance_events();
        self.record_each(&events);
    }
}

} // verus!
