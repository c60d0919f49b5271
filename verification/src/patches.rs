//! Open wiki patches when the wiki base moves. Which of them the new base left
//! behind is for the host to find out; it is asked, and what it says is carried
//! out here.

use crate::model::Surface;
use crate::payload::{Payload, PayloadV};
use crate::state;
use crate::state::{
    next_after, Effect, EffectV, ProposalRecord, ProposalState, RecordV, State, StateV,
};
use crate::table;
use crate::table::Table;
use vstd::prelude::*;

verus! {

/// Is that the card of a wiki patch?
pub open spec fn is_patch(card: RecordV) -> bool {
    card.surface == Surface::Memory && card.payload.has_op("wiki_patch"@)
}

/// Is that card an open wiki patch?
pub open spec fn waits(card: RecordV) -> bool {
    card.state == ProposalState::Proposed && is_patch(card)
}

/// Is `id` an open wiki patch?
pub open spec fn open_patch(cards: Seq<(u64, RecordV)>, id: u64) -> bool {
    match table::get(cards, id) {
        Some(card) => waits(card),
        None => false,
    }
}

/// The open wiki patches, but for one.
pub open spec fn open_patches(cards: Seq<(u64, RecordV)>, except: Option<u64>) -> Seq<u64>
    decreases cards.len(),
{
    if cards.len() == 0 {
        Seq::empty()
    } else {
        let rest = open_patches(cards.drop_last(), except);
        if waits(cards.last().1) && except != Some(cards.last().0) {
            rest.push(cards.last().0)
        } else {
            rest
        }
    }
}

/// Is that card an open wiki patch?
fn card_waits(card: &ProposalRecord) -> (r: bool)
    ensures
        r == waits(card.deep_view()),
{
    card.state == ProposalState::Proposed && card.surface == Surface::Memory
        && card.payload.has_op("wiki_patch")
}

/// Is `id` an open wiki patch?
pub fn is_open_patch(cards: &Table<ProposalRecord>, id: u64) -> (r: bool)
    ensures
        r == open_patch(cards.deep_view(), id),
{
    match cards.get(id) {
        Some(card) => card_waits(card),
        None => false,
    }
}

/// The open wiki patches, but for one.
fn find_open_patches(cards: &Table<ProposalRecord>, except: Option<u64>) -> (r: Vec<u64>)
    ensures
        r@ == open_patches(cards.deep_view(), except),
{
    let ghost all = cards.deep_view();
    let rows = cards.rows();
    let mut out: Vec<u64> = Vec::new();
    let mut i: usize = 0;
    assert(all.take(0) =~= Seq::empty());
    while i < rows.len()
        invariant
            i <= rows.len(),
            all == rows.deep_view(),
            out@ == open_patches(all.take(i as int), except),
        decreases rows.len() - i,
    {
        proof {
            assert(all.take(i + 1).drop_last() =~= all.take(i as int));
            assert(all.take(i + 1).last() == rows@[i as int].deep_view());
        }
        let spared = match except {
            Some(id) => id == rows[i].key,
            None => false,
        };
        if card_waits(rows[i].value) && !spared {
            out.push(rows[i].key);
        }
        i = i + 1;
    }
    assert(all.take(i as int) =~= all);
    out
}

impl StateV {
    /// The wiki base moved, by an entry or as a whole: where patches are open,
    /// the host is asked which of them it left behind. The patch that moved it
    /// is not among them.
    pub open spec fn base_moved(self, by: Option<PayloadV>, except: Option<u64>) -> StateV {
        let open = open_patches(self.proposals, except);
        if open.len() == 0 {
            self
        } else {
            (StateV { wiki_asked: state::after(self.wiki_asked), ..self }).doing(
                EffectV::WikiMoved { by, open },
            )
        }
    }

    /// An open wiki patch that the base left behind retired: rejected without a
    /// vote against it, and its votes forgotten. Anything else stays.
    pub open spec fn retiring(self, id: u64) -> StateV {
        match table::get(self.proposals, id) {
            Some(card) => if waits(card) {
                (StateV {
                    proposals: table::put(
                        self.proposals,
                        id,
                        RecordV { state: ProposalState::Rejected, superseded: true, ..card },
                    ),
                    ..self
                }).forgetting(id)
            } else {
                self
            },
            None => self,
        }
    }

    /// Several wiki patches retired, in order.
    pub open spec fn retiring_each(self, ids: Seq<u64>) -> StateV
        decreases ids.len(),
    {
        if ids.len() == 0 {
            self
        } else {
            self.retiring_each(ids.drop_last()).retiring(ids.last())
        }
    }

    /// Does moving that vote have to wait? It does for an open wiki patch while
    /// the host has not said which ones are left behind.
    pub open spec fn vote_waits(self, id: u64) -> bool {
        self.wiki_asked > 0 && open_patch(self.proposals, id)
    }
}

/// Retiring patches answers no question.
pub proof fn lemma_retiring_asks_nothing(s: StateV, ids: Seq<u64>)
    ensures
        s.retiring_each(ids).wiki_asked == s.wiki_asked,
    decreases ids.len(),
{
    if ids.len() > 0 {
        lemma_retiring_asks_nothing(s, ids.drop_last());
    }
}

impl State {
    /// Asks the host which open wiki patches a moved base left behind.
    pub fn move_base(&mut self, by: Option<Payload>, except: Option<u64>)
        ensures
            final(self).deep_view() == old(self).deep_view().base_moved(by.deep_view(), except),
    {
        let open = find_open_patches(&self.proposals, except);
        if open.len() > 0 {
            self.wiki_asked = next_after(self.wiki_asked);
            assert(open.deep_view() =~= open@);
            self.doing(Effect::WikiMoved { by, open });
        }
    }

    /// Retires a wiki patch that the base left behind.
    pub fn retire_patch(&mut self, id: u64)
        ensures
            final(self).deep_view() == old(self).deep_view().retiring(id),
    {
        let card = match self.proposals.get(id) {
            Some(p) => p.clone(),
            None => {
                return;
            },
        };
        if card_waits(&card) {
            let mut retired = card;
            retired.state = ProposalState::Rejected;
            retired.superseded = true;
            self.proposals.insert(id, retired);
            self.forget_vote(id);
        }
    }

    /// Retires the wiki patches that the base left behind.
    pub fn retire_patches(&mut self, ids: &Vec<u64>)
        ensures
            final(self).deep_view() == old(self).deep_view().retiring_each(ids@),
    {
        let ghost start = self.deep_view();
        let mut i: usize = 0;
        assert(ids@.take(0) =~= Seq::empty());
        while i < ids.len()
            invariant
                i <= ids.len(),
                self.deep_view() == start.retiring_each(ids@.take(i as int)),
            decreases ids.len() - i,
        {
            proof {
                assert(ids@.take(i + 1).drop_last() =~= ids@.take(i as int));
                assert(ids@.take(i + 1).last() == ids@[i as int]);
            }
            self.retire_patch(ids[i]);
            i = i + 1;
        }
        assert(ids@.take(i as int) =~= ids@);
    }
}

} // verus!
