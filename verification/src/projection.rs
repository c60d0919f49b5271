//! A holder's projection of its verified chain: adopting a chain, folding one
//! block or the whole chain into the state, and settling the cards against
//! what the chain decided.

use crate::canonical::GENESIS_PREV;
use crate::fold;
use crate::fold::find_group;
use crate::governance;
use crate::governance::new_card;
use crate::history;
use crate::history::{anchor_change, declare_change, fold_anchors, fold_declarations};
use crate::model::{
    Anchor, AnchorV, AppliedEntry, AppliedGroup, AttestationV, BlockV, ChainBlock, ChainChange,
    ChangeV, CheckpointState, DeclarationV, EntryV, GroupV, MemberIdentity, RelayDeclaration,
    RosterAttestation, SealedRoster, SealedV, SummaryV, Surface,
};
use crate::own_chain;
use crate::own_chain::largest;
use crate::payload::{Payload, PayloadV};
use crate::signers;
use crate::signers::seat_names;
use crate::state;
use crate::state::{
    Effect, EffectV, Event, EventV, ProposalRecord, ProposalState, RecordV, ReplicaV, State,
    StateV,
};
use crate::table;
use crate::table::Table;
use vstd::prelude::*;
use vstd::string::*;

verus! {

/// The first block of a sealed roster; none where the founding is not a real
/// one, with an id and one attestation for each member.
pub open spec fn genesis_of(sealed: SealedV) -> Seq<BlockV> {
    if sealed.republic_id.len() == 0 || sealed.identities.len() == 0 || sealed.attestations.len()
        != sealed.identities.len() {
        Seq::empty()
    } else {
        seq![
            BlockV {
                height: 0,
                prev: GENESIS_PREV@,
                change: ChangeV::Genesis {
                    name: sealed.name,
                    republic_id: sealed.republic_id,
                    rule_m: sealed.rule_m,
                    rule_n: sealed.rule_n,
                    identities: sealed.identities,
                    agenda: sealed.agenda,
                    features: sealed.features,
                    relays: sealed.relays,
                },
                sigs: sealed.attestations,
            },
        ]
    }
}

/// The chain of a sealed roster: its first block, or nothing.
pub fn genesis_chain(sealed: &SealedRoster) -> (r: Vec<ChainBlock>)
    ensures
        r.deep_view() == genesis_of(sealed.deep_view()),
{
    if sealed.republic_id.as_str().is_empty() || sealed.identities.len() == 0
        || sealed.attestations.len() != sealed.identities.len() {
        let none: Vec<ChainBlock> = Vec::new();
        assert(none.deep_view() =~= Seq::empty());
        return none;
    }
    let block = ChainBlock {
        height: 0,
        prev: GENESIS_PREV.to_owned(),
        change: ChainChange::Genesis {
            name: sealed.name.clone(),
            republic_id: sealed.republic_id.clone(),
            rule_m: sealed.rule_m,
            rule_n: sealed.rule_n,
            identities: sealed.identities.clone(),
            agenda: sealed.agenda.clone(),
            features: sealed.features.clone(),
            relays: sealed.relays.clone(),
        },
        sigs: sealed.attestations.clone(),
    };
    let ghost b = block.deep_view();
    let r: Vec<ChainBlock> = vec![block];
    assert(r.deep_view() =~= seq![b]);
    r
}

/// The larger of two numbers, either of which may be missing.
pub open spec fn larger_of(a: Option<u64>, b: Option<u64>) -> Option<u64> {
    match (a, b) {
        (Some(x), Some(y)) => Some(state::larger(x, y)),
        (Some(x), None) => Some(x),
        (None, y) => y,
    }
}

/// The highest proposal id that the blocks consumed.
pub open spec fn top_applied(blocks: Seq<BlockV>) -> Option<u64>
    decreases blocks.len(),
{
    if blocks.len() == 0 {
        None
    } else {
        larger_of(top_applied(blocks.drop_last()), signers::consumed_by(blocks.last().change))
    }
}

/// The highest proposal id that the blocks consumed.
pub fn max_applied_proposal_id(blocks: &Vec<ChainBlock>) -> (r: Option<u64>)
    ensures
        r == top_applied(blocks.deep_view()),
{
    let ghost all = blocks.deep_view();
    let mut top: Option<u64> = None;
    let mut i: usize = 0;
    assert(all.take(0) =~= Seq::empty());
    while i < blocks.len()
        invariant
            i <= blocks.len(),
            all == blocks.deep_view(),
            top == top_applied(all.take(i as int)),
        decreases blocks.len() - i,
    {
        proof {
            assert(all.take(i + 1).drop_last() =~= all.take(i as int));
            assert(all.take(i + 1).last() == blocks@[i as int].deep_view());
        }
        match &blocks[i].change {
            ChainChange::Applied { proposal_id, .. } => {
                let bigger = match top {
                    Some(t) => t < *proposal_id,
                    None => true,
                };
                if bigger {
                    top = Some(*proposal_id);
                }
            },
            _ => {},
        }
        i = i + 1;
    }
    assert(all.take(i as int) =~= all);
    top
}

/// The groups with one more entry at the end of its surface's group.
pub open spec fn group_with(groups: Seq<GroupV>, surface: Surface, entry: EntryV) -> Seq<GroupV> {
    let at = fold::group_at(groups, surface) as int;
    if at < groups.len() {
        groups.update(at, GroupV { surface, entries: groups[at].entries.push(entry) })
    } else {
        groups.push(GroupV { surface, entries: seq![entry] })
    }
}

/// Adds an entry at the end of its surface's group.
pub fn add_entry(groups: &mut Vec<AppliedGroup>, surface: Surface, id: u64, payload: &Payload)
    ensures
        final(groups).deep_view() == group_with(
            old(groups).deep_view(),
            surface,
            (EntryV { id, payload: payload.deep_view() }),
        ),
{
    let ghost all = groups.deep_view();
    let ghost new = EntryV { id, payload: payload.deep_view() };
    let at = find_group(groups, surface);
    if at < groups.len() {
        assert(all[at as int] == groups@[at as int].deep_view());
        let mut entries = groups[at].entries.clone();
        let ghost kept = entries.deep_view();
        entries.push(AppliedEntry { id, payload: payload.clone() });
        assert(entries.deep_view() =~= kept.push(new));
        groups[at] = AppliedGroup { surface, entries };
        assert(groups.deep_view() =~= group_with(all, surface, new));
    } else {
        let entry = AppliedEntry { id, payload: payload.clone() };
        let entries: Vec<AppliedEntry> = vec![entry];
        assert(entries.deep_view() =~= seq![new]);
        groups.push(AppliedGroup { surface, entries });
        assert(groups.deep_view() =~= group_with(all, surface, new));
    }
}

/// The groups with the entries of one more group.
pub open spec fn entries_into(groups: Seq<GroupV>, surface: Surface, entries: Seq<EntryV>) -> Seq<
    GroupV,
>
    decreases entries.len(),
{
    if entries.len() == 0 {
        groups
    } else {
        group_with(entries_into(groups, surface, entries.drop_last()), surface, entries.last())
    }
}

/// The groups that a summary's applied entries make.
pub open spec fn groups_seeded(applied: Seq<GroupV>) -> Seq<GroupV>
    decreases applied.len(),
{
    if applied.len() == 0 {
        Seq::empty()
    } else {
        entries_into(
            groups_seeded(applied.drop_last()),
            applied.last().surface,
            applied.last().entries,
        )
    }
}

/// The groups that a summary's applied entries make.
pub fn seed_groups(applied: &Vec<AppliedGroup>) -> (r: Vec<AppliedGroup>)
    ensures
        r.deep_view() == groups_seeded(applied.deep_view()),
{
    let ghost all = applied.deep_view();
    let mut out: Vec<AppliedGroup> = Vec::new();
    let mut i: usize = 0;
    assert(all.take(0) =~= Seq::empty());
    assert(out.deep_view() =~= Seq::empty());
    while i < applied.len()
        invariant
            i <= applied.len(),
            all == applied.deep_view(),
            out.deep_view() == groups_seeded(all.take(i as int)),
        decreases applied.len() - i,
    {
        let ghost base = out.deep_view();
        let entries = &applied[i].entries;
        let ghost each = entries.deep_view();
        let surface = applied[i].surface;
        let mut j: usize = 0;
        proof {
            assert(all.take(i + 1).drop_last() =~= all.take(i as int));
            assert(all.take(i + 1).last() == applied@[i as int].deep_view());
            assert(each.take(0) =~= Seq::empty());
        }
        while j < entries.len()
            invariant
                j <= entries.len(),
                each == entries.deep_view(),
                out.deep_view() == entries_into(base, surface, each.take(j as int)),
            decreases entries.len() - j,
        {
            proof {
                assert(each.take(j + 1).drop_last() =~= each.take(j as int));
                assert(each.take(j + 1).last() == entries@[j as int].deep_view());
            }
            add_entry(&mut out, surface, entries[j].id, &entries[j].payload);
            j = j + 1;
        }
        assert(each.take(j as int) =~= each);
        i = i + 1;
    }
    assert(all.take(i as int) =~= all);
    out
}

/// The groups after one block.
pub open spec fn groups_with(groups: Seq<GroupV>, change: ChangeV) -> Seq<GroupV> {
    match change {
        ChangeV::Applied { proposal_id, surface, payload } => group_with(
            groups,
            surface,
            EntryV { id: proposal_id, payload },
        ),
        _ => groups,
    }
}

/// The groups after several blocks.
pub open spec fn groups_through(base: Seq<GroupV>, blocks: Seq<BlockV>) -> Seq<GroupV>
    decreases blocks.len(),
{
    if blocks.len() == 0 {
        base
    } else {
        groups_with(groups_through(base, blocks.drop_last()), blocks.last().change)
    }
}

/// The signatures of the applied blocks after one more block.
pub open spec fn applied_sigs_with(
    sigs: Seq<(u64, Seq<AttestationV>)>,
    block: BlockV,
) -> Seq<(u64, Seq<AttestationV>)> {
    match block.change {
        ChangeV::Applied { proposal_id, .. } => table::put(sigs, proposal_id, block.sigs),
        _ => sigs,
    }
}

/// The signatures of the applied blocks.
pub open spec fn applied_sigs_through(blocks: Seq<BlockV>) -> Seq<(u64, Seq<AttestationV>)>
    decreases blocks.len(),
{
    if blocks.len() == 0 {
        Seq::empty()
    } else {
        applied_sigs_with(applied_sigs_through(blocks.drop_last()), blocks.last())
    }
}

/// A decided proposal: its id, its surface and what it applied.
#[derive(Debug)]
pub struct Decision {
    pub id: u64,
    pub surface: Surface,
    pub payload: Payload,
}

/// The model of [`Decision`].
pub struct DecisionV {
    pub id: u64,
    pub surface: Surface,
    pub payload: PayloadV,
}

impl DeepView for Decision {
    type V = DecisionV;

    open spec fn deep_view(&self) -> DecisionV {
        DecisionV { id: self.id, surface: self.surface, payload: self.payload.deep_view() }
    }
}

/// A decided proposal whose card is still open.
#[derive(Debug)]
pub struct CardRef {
    pub id: u64,
    pub surface: Surface,
}

/// The model of [`CardRef`].
pub struct CardRefV {
    pub id: u64,
    pub surface: Surface,
}

impl DeepView for CardRef {
    type V = CardRefV;

    open spec fn deep_view(&self) -> CardRefV {
        CardRefV { id: self.id, surface: self.surface }
    }
}

/// The decisions that a group holds.
pub open spec fn decisions_of(surface: Surface, entries: Seq<EntryV>) -> Seq<DecisionV> {
    Seq::new(
        entries.len(),
        |i: int| DecisionV { id: entries[i].id, surface, payload: entries[i].payload },
    )
}

/// The decisions that several groups hold, group by group.
pub open spec fn decisions_in(groups: Seq<GroupV>) -> Seq<DecisionV>
    decreases groups.len(),
{
    if groups.len() == 0 {
        Seq::empty()
    } else {
        decisions_in(groups.drop_last()) + decisions_of(
            groups.last().surface,
            groups.last().entries,
        )
    }
}

/// The decisions that the blocks carry, in order.
pub open spec fn decisions_sealed(blocks: Seq<BlockV>) -> Seq<DecisionV>
    decreases blocks.len(),
{
    if blocks.len() == 0 {
        Seq::empty()
    } else {
        let rest = decisions_sealed(blocks.drop_last());
        match blocks.last().change {
            ChangeV::Applied { proposal_id, surface, payload } => rest.push(
                DecisionV { id: proposal_id, surface, payload },
            ),
            _ => rest,
        }
    }
}

/// The decisions that several groups hold, group by group.
fn find_decisions(groups: &Vec<AppliedGroup>) -> (r: Vec<Decision>)
    ensures
        r.deep_view() == decisions_in(groups.deep_view()),
{
    let ghost all = groups.deep_view();
    let mut out: Vec<Decision> = Vec::new();
    let mut i: usize = 0;
    assert(all.take(0) =~= Seq::empty());
    assert(out.deep_view() =~= Seq::empty());
    while i < groups.len()
        invariant
            i <= groups.len(),
            all == groups.deep_view(),
            out.deep_view() == decisions_in(all.take(i as int)),
        decreases groups.len() - i,
    {
        let ghost base = out.deep_view();
        let entries = &groups[i].entries;
        let ghost each = entries.deep_view();
        let surface = groups[i].surface;
        let ghost part = decisions_of(surface, each);
        let mut j: usize = 0;
        proof {
            assert(all.take(i + 1).drop_last() =~= all.take(i as int));
            assert(all.take(i + 1).last() == groups@[i as int].deep_view());
            assert(base + part.take(0) =~= base);
        }
        while j < entries.len()
            invariant
                j <= entries.len(),
                each == entries.deep_view(),
                part == decisions_of(surface, each),
                out.deep_view() == base + part.take(j as int),
            decreases entries.len() - j,
        {
            let ghost done = out.deep_view();
            let d = Decision { id: entries[j].id, surface, payload: entries[j].payload.clone() };
            out.push(d);
            proof {
                assert(each[j as int] == entries@[j as int].deep_view());
                assert(d.deep_view() == part[j as int]);
                assert(out.deep_view() =~= done.push(d.deep_view()));
                assert(done.push(d.deep_view()) =~= base + part.take(j + 1));
            }
            j = j + 1;
        }
        assert(part.take(j as int) =~= part);
        i = i + 1;
    }
    assert(all.take(i as int) =~= all);
    out
}

/// The decisions that the blocks carry, in order.
fn find_sealed(blocks: &Vec<ChainBlock>) -> (r: Vec<Decision>)
    ensures
        r.deep_view() == decisions_sealed(blocks.deep_view()),
{
    let ghost all = blocks.deep_view();
    let mut out: Vec<Decision> = Vec::new();
    let mut i: usize = 0;
    assert(all.take(0) =~= Seq::empty());
    assert(out.deep_view() =~= Seq::empty());
    while i < blocks.len()
        invariant
            i <= blocks.len(),
            all == blocks.deep_view(),
            out.deep_view() == decisions_sealed(all.take(i as int)),
        decreases blocks.len() - i,
    {
        let ghost done = out.deep_view();
        proof {
            assert(all.take(i + 1).drop_last() =~= all.take(i as int));
            assert(all.take(i + 1).last() == blocks@[i as int].deep_view());
        }
        match &blocks[i].change {
            ChainChange::Applied { proposal_id, surface, payload } => {
                let d = Decision {
                    id: *proposal_id,
                    surface: *surface,
                    payload: payload.clone(),
                };
                out.push(d);
                assert(out.deep_view() =~= done.push(d.deep_view()));
            },
            _ => {},
        }
        i = i + 1;
    }
    assert(all.take(i as int) =~= all);
    out
}

/// The decisions without a card.
pub open spec fn cardless(cards: Seq<(u64, RecordV)>, decisions: Seq<DecisionV>) -> Seq<DecisionV>
    decreases decisions.len(),
{
    if decisions.len() == 0 {
        Seq::empty()
    } else {
        let rest = cardless(cards, decisions.drop_last());
        if table::has(cards, decisions.last().id) {
            rest
        } else {
            rest.push(decisions.last())
        }
    }
}

/// Is there a card of that id that does not read applied?
pub open spec fn undecided(cards: Seq<(u64, RecordV)>, id: u64) -> bool {
    table::has(cards, id) && table::get(cards, id)->0.state != ProposalState::Applied
}

/// The decisions whose card does not read applied.
pub open spec fn behind(cards: Seq<(u64, RecordV)>, decisions: Seq<DecisionV>) -> Seq<CardRefV>
    decreases decisions.len(),
{
    if decisions.len() == 0 {
        Seq::empty()
    } else {
        let rest = behind(cards, decisions.drop_last());
        if undecided(cards, decisions.last().id) {
            rest.push(CardRefV { id: decisions.last().id, surface: decisions.last().surface })
        } else {
            rest
        }
    }
}

/// The consumed ids whose card does not read applied.
pub open spec fn behind_ids(cards: Seq<(u64, RecordV)>, ids: Seq<u64>) -> Seq<CardRefV>
    decreases ids.len(),
{
    if ids.len() == 0 {
        Seq::empty()
    } else {
        let rest = behind_ids(cards, ids.drop_last());
        if undecided(cards, ids.last()) {
            rest.push(
                CardRefV { id: ids.last(), surface: table::get(cards, ids.last())->0.surface },
            )
        } else {
            rest
        }
    }
}

/// Sorts decisions by their cards: the ones without a card, and the ones
/// whose card does not read applied.
fn sort_decisions(
    cards: &Table<ProposalRecord>,
    decisions: Vec<Decision>,
    missing: &mut Vec<Decision>,
    open: &mut Vec<CardRef>,
)
    ensures
        final(missing).deep_view() == old(missing).deep_view() + cardless(
            cards.deep_view(),
            decisions.deep_view(),
        ),
        final(open).deep_view() == old(open).deep_view() + behind(
            cards.deep_view(),
            decisions.deep_view(),
        ),
{
    let ghost all = decisions.deep_view();
    let ghost c = cards.deep_view();
    let ghost m0 = missing.deep_view();
    let ghost o0 = open.deep_view();
    let mut i: usize = 0;
    proof {
        assert(all.take(0) =~= Seq::empty());
        assert(m0 + cardless(c, all.take(0)) =~= m0);
        assert(o0 + behind(c, all.take(0)) =~= o0);
    }
    while i < decisions.len()
        invariant
            i <= decisions.len(),
            all == decisions.deep_view(),
            c == cards.deep_view(),
            m0 == old(missing).deep_view(),
            o0 == old(open).deep_view(),
            missing.deep_view() == m0 + cardless(c, all.take(i as int)),
            open.deep_view() == o0 + behind(c, all.take(i as int)),
        decreases decisions.len() - i,
    {
        let d = &decisions[i];
        let ghost m = missing.deep_view();
        let ghost o = open.deep_view();
        let ghost front = all.take(i as int);
        proof {
            assert(all.take(i + 1).drop_last() =~= front);
            assert(all.take(i + 1).last() == d.deep_view());
        }
        match cards.get(d.id) {
            None => {
                let copy = Decision { id: d.id, surface: d.surface, payload: d.payload.clone() };
                missing.push(copy);
                proof {
                    assert(missing.deep_view() =~= m.push(copy.deep_view()));
                    assert(m.push(copy.deep_view()) =~= m0 + cardless(c, front).push(
                        copy.deep_view(),
                    ));
                }
            },
            Some(p) => {
                if p.state != ProposalState::Applied {
                    let card = CardRef { id: d.id, surface: d.surface };
                    open.push(card);
                    proof {
                        assert(open.deep_view() =~= o.push(card.deep_view()));
                        assert(o.push(card.deep_view()) =~= o0 + behind(c, front).push(
                            card.deep_view(),
                        ));
                    }
                }
            },
        }
        i = i + 1;
    }
    assert(all.take(i as int) =~= all);
}

/// Adds the consumed ids whose card does not read applied.
fn sort_ids_behind(cards: &Table<ProposalRecord>, ids: &Vec<u64>, open: &mut Vec<CardRef>)
    ensures
        final(open).deep_view() == old(open).deep_view() + behind_ids(cards.deep_view(), ids@),
{
    let ghost c = cards.deep_view();
    let ghost o0 = open.deep_view();
    let mut i: usize = 0;
    proof {
        assert(ids@.take(0) =~= Seq::empty());
        assert(o0 + behind_ids(c, ids@.take(0)) =~= o0);
    }
    while i < ids.len()
        invariant
            i <= ids.len(),
            c == cards.deep_view(),
            o0 == old(open).deep_view(),
            open.deep_view() == o0 + behind_ids(c, ids@.take(i as int)),
        decreases ids.len() - i,
    {
        let ghost o = open.deep_view();
        let ghost front = ids@.take(i as int);
        proof {
            assert(ids@.take(i + 1).drop_last() =~= front);
            assert(ids@.take(i + 1).last() == ids@[i as int]);
        }
        match cards.get(ids[i]) {
            None => {},
            Some(p) => {
                if p.state != ProposalState::Applied {
                    let card = CardRef { id: ids[i], surface: p.surface };
                    open.push(card);
                    proof {
                        assert(open.deep_view() =~= o.push(card.deep_view()));
                        assert(o.push(card.deep_view()) =~= o0 + behind_ids(c, front).push(
                            card.deep_view(),
                        ));
                    }
                }
            },
        }
        i = i + 1;
    }
    assert(ids@.take(i as int) =~= ids@);
}

impl StateV {
    /// The mint counter kept past every id that the verified chain consumed.
    pub open spec fn minting_past_chain(self) -> StateV {
        if self.walk is Some && own_chain::top_of(self.walk->0.seen) is Some {
            self.minting_past(own_chain::top_of(self.walk->0.seen)->0)
        } else {
            self
        }
    }

    /// Another summary to be anchored on; the kept walk and what is cached of
    /// the projection go with the old one.
    pub open spec fn anchored_on(self, blob: Option<SummaryV>) -> StateV {
        (StateV { checkpoint_blob: blob, walk: None, ..self }).doing(EffectV::AppliedReset)
    }

    /// The roster as the verified head has it.
    pub open spec fn roster_adopted(self) -> StateV {
        match (self.head, self.replica) {
            (Some(head), Some(r)) => StateV {
                replica: Some(
                    ReplicaV {
                        identities: head.identities,
                        roster: signers::seat_names_of(head.identities),
                        ..r
                    },
                ),
                ..self
            },
            _ => self,
        }
    }

    /// One appended block folded into the projection.
    pub open spec fn projecting(self, block: BlockV) -> StateV {
        let folded = match block.change {
            ChangeV::Applied { proposal_id, surface, payload } => {
                let added = StateV {
                    applied: groups_with(self.applied, block.change),
                    applied_sigs: applied_sigs_with(self.applied_sigs, block),
                    ..self
                };
                let piped = if payload.has_op("set_relays"@) {
                    added.pool_adopted()
                } else {
                    added
                };
                if surface == Surface::Memory {
                    piped.base_moved(Some(payload), Some(proposal_id))
                } else {
                    piped
                }
            },
            ChangeV::Membership { member, nostr_pk, relays, .. } => {
                let moved = StateV {
                    anchors: history::anchors_with(self.anchors, block.change),
                    member_relays: history::declarations_with(self.member_relays, block.change),
                    ..self
                };
                if relays.len() > 0 {
                    moved.noting_splits()
                } else {
                    moved
                }
            },
            _ => self,
        };
        folded.roster_adopted()
    }

    /// A card made from a block, where there is none. Its proposer stays
    /// unnamed: the block does not record one.
    pub open spec fn card_made(self, d: DecisionV) -> StateV {
        if table::has(self.proposals, d.id) {
            self
        } else {
            StateV {
                proposals: table::put(
                    self.proposals,
                    d.id,
                    RecordV {
                        state: ProposalState::Applied,
                        ..governance::open_card(d.surface, d.payload, Seq::empty())
                    },
                ),
                ..self
            }
        }
    }

    /// Cards made for the decisions that have none, their votes forgotten.
    pub open spec fn cards_made(self, missing: Seq<DecisionV>) -> StateV
        decreases missing.len(),
    {
        if missing.len() == 0 {
            self
        } else {
            self.cards_made(missing.drop_last()).card_made(missing.last()).forgetting(
                missing.last().id,
            )
        }
    }

    /// Open cards of decided proposals applied, their votes forgotten, each
    /// announced.
    pub open spec fn cards_settled(self, open: Seq<CardRefV>) -> StateV
        decreases open.len(),
    {
        if open.len() == 0 {
            self
        } else {
            self.cards_settled(open.drop_last()).card_applied(open.last().id).forgetting(
                open.last().id,
            ).emitting(EventV::Applied { id: open.last().id, surface: open.last().surface })
        }
    }

    /// The membership changes of the blocks settled, in order.
    pub open spec fn memberships_settled(self, blocks: Seq<BlockV>) -> StateV
        decreases blocks.len(),
    {
        if blocks.len() == 0 {
            self
        } else {
            self.memberships_settled(blocks.drop_last()).membership_settled(blocks.last().change)
        }
    }

    /// The decisions that the summary carries.
    pub open spec fn summarized(self) -> Seq<DecisionV> {
        match self.checkpoint_blob {
            Some(blob) => decisions_in(blob.applied),
            None => Seq::empty(),
        }
    }

    /// The ids that the summary consumed.
    pub open spec fn summarized_ids(self) -> Seq<u64> {
        match self.checkpoint_blob {
            Some(blob) => blob.consumed_ids,
            None => Seq::empty(),
        }
    }

    /// The cards settled against the verified chain: a decided proposal
    /// without a card gets one, an open card of a decided proposal reads
    /// applied, and the sealed membership changes settle theirs.
    pub open spec fn settled_against_chain(self) -> StateV {
        let missing = cardless(self.proposals, self.summarized()) + cardless(
            self.proposals,
            decisions_sealed(self.blocks),
        );
        let open = behind(self.proposals, self.summarized()) + behind_ids(
            self.proposals,
            self.summarized_ids(),
        ) + behind(self.proposals, decisions_sealed(self.blocks));
        self.cards_made(missing).cards_settled(open).memberships_settled(self.blocks)
    }

    /// The applied groups that the chain makes.
    pub open spec fn projected_groups(self) -> Seq<GroupV> {
        groups_through(
            match self.checkpoint_blob {
                Some(blob) => groups_seeded(blob.applied),
                None => Seq::empty(),
            },
            self.blocks,
        )
    }

    /// The working anchors that the chain makes.
    pub open spec fn projected_anchors(self) -> Seq<AnchorV> {
        history::anchors_through(
            match self.checkpoint_blob {
                Some(blob) => blob.anchors,
                None => Seq::empty(),
            },
            self.blocks,
        )
    }

    /// The relay declarations that the chain makes.
    pub open spec fn projected_declarations(self) -> Seq<DeclarationV> {
        history::declarations_through(
            match self.checkpoint_blob {
                Some(blob) => blob.member_relays,
                None => Seq::empty(),
            },
            self.blocks,
        )
    }

    /// The whole chain projected anew.
    pub open spec fn chain_applied(self) -> StateV {
        let applied = StateV {
            applied: self.projected_groups(),
            applied_sigs: applied_sigs_through(self.blocks),
            ..self
        };
        let settled = applied.doing(EffectV::AppliedReset).settled_against_chain().base_moved(
            None,
            None,
        );
        let addressed = StateV {
            anchors: self.projected_anchors(),
            member_relays: self.projected_declarations(),
            ..settled
        };
        addressed.noting_splits().pool_adopted().roster_adopted()
    }

    /// A chain adopted where it verifies in this holder's context. One that
    /// does not leaves no chain at all.
    pub open spec fn adopting(self, chain: Seq<BlockV>) -> StateV {
        match self.walked_here(chain) {
            Ok(w) => (StateV {
                blocks: chain,
                head: Some(w.head),
                walk: Some(w),
                ..self
            }).minting_past_chain().chain_applied(),
            Err(e) => (StateV { blocks: Seq::empty(), head: None, ..self }).anchored_on(None),
        }
    }
}

impl State {
    /// Keeps the mint counter past every id that the verified chain consumed:
    /// a peer refuses a consumed id, so one minted here could never seal.
    pub fn bump_next_id_past_chain(&mut self)
        ensures
            final(self).deep_view() == old(self).deep_view().minting_past_chain(),
    {
        let top = match &self.walk {
            Some(w) => largest(&w.seen),
            None => None,
        };
        match top {
            Some(id) => {
                self.mint_past(id);
            },
            None => {},
        }
    }

    /// Sets or clears the summary that the chain is anchored on. The kept walk
    /// was seeded from the old one, so it goes.
    pub fn set_checkpoint_blob(&mut self, blob: Option<CheckpointState>)
        ensures
            final(self).deep_view() == old(self).deep_view().anchored_on(blob.deep_view()),
    {
        self.checkpoint_blob = blob;
        self.walk = None;
        self.doing(Effect::AppliedReset);
    }

    /// Takes the roster from the verified head.
    pub fn adopt_head_roster(&mut self)
        ensures
            final(self).deep_view() == old(self).deep_view().roster_adopted(),
    {
        let identities: Vec<MemberIdentity> = match &self.head {
            Some(h) => h.identities.clone(),
            None => {
                return;
            },
        };
        let roster = seat_names(&identities);
        match self.replica.take() {
            Some(mut r) => {
                r.identities = identities;
                r.roster = roster;
                self.replica = Some(r);
            },
            None => {},
        }
    }

    /// Folds one appended block into the projection. An append only ever
    /// adds, so nothing is rebuilt.
    pub fn project_one(&mut self, block: &ChainBlock)
        ensures
            final(self).deep_view() == old(self).deep_view().projecting(block.deep_view()),
    {
        match &block.change {
            ChainChange::Applied { proposal_id, surface, payload } => {
                add_entry(&mut self.applied, *surface, *proposal_id, payload);
                self.applied_sigs.insert(*proposal_id, block.sigs.clone());
                if payload.has_op("set_relays") {
                    self.adopt_pool_change();
                }
                if *surface == Surface::Memory {
                    self.move_base(Some(payload.clone()), Some(*proposal_id));
                }
            },
            ChainChange::Membership { relays, .. } => {
                anchor_change(&mut self.anchors, &block.change);
                declare_change(&mut self.member_relays, &block.change);
                if relays.len() > 0 {
                    self.note_relay_splits();
                }
            },
            _ => {},
        }
        self.adopt_head_roster();
    }

    /// Makes a card from a block, where there is none.
    pub fn ensure_applied_record(&mut self, proposal_id: u64, surface: Surface, payload: Payload)
        ensures
            final(self).deep_view() == old(self).deep_view().card_made(
                (DecisionV { id: proposal_id, surface, payload: payload.deep_view() }),
            ),
    {
        if !self.proposals.contains_key(proposal_id) {
            let card = new_card(surface, payload, ProposalState::Applied, String::new());
            assert(card.deep_view().by =~= Seq::empty());
            self.proposals.insert(proposal_id, card);
        }
    }

    /// Settles the cards against the verified chain.
    pub fn settle_cards_against_chain(&mut self)
        ensures
            final(self).deep_view() == old(self).deep_view().settled_against_chain(),
    {
        let ghost s = self.deep_view();
        let blocks = self.blocks.clone();
        let mut missing: Vec<Decision> = Vec::new();
        let mut open: Vec<CardRef> = Vec::new();
        proof {
            assert(missing.deep_view() =~= Seq::empty());
            assert(open.deep_view() =~= Seq::empty());
        }
        match &self.checkpoint_blob {
            Some(blob) => {
                let summarized = find_decisions(&blob.applied);
                sort_decisions(&self.proposals, summarized, &mut missing, &mut open);
                sort_ids_behind(&self.proposals, &blob.consumed_ids, &mut open);
                proof {
                    fold::lemma_ids_view(blob.consumed_ids);
                }
            },
            None => {},
        }
        proof {
            assert(missing.deep_view() =~= cardless(s.proposals, s.summarized()));
            assert(open.deep_view() =~= behind(s.proposals, s.summarized()) + behind_ids(
                s.proposals,
                s.summarized_ids(),
            ));
        }
        let sealed = find_sealed(&self.blocks);
        sort_decisions(&self.proposals, sealed, &mut missing, &mut open);
        let ghost all = missing.deep_view();
        let mut i: usize = 0;
        assert(all.take(0) =~= Seq::empty());
        while i < missing.len()
            invariant
                i <= missing.len(),
                all == missing.deep_view(),
                s == old(self).deep_view(),
                self.deep_view() == s.cards_made(all.take(i as int)),
            decreases missing.len() - i,
        {
            let d = &missing[i];
            proof {
                assert(all.take(i + 1).drop_last() =~= all.take(i as int));
                assert(all.take(i + 1).last() == d.deep_view());
            }
            self.ensure_applied_record(d.id, d.surface, d.payload.clone());
            self.forget_vote(d.id);
            i = i + 1;
        }
        assert(all.take(i as int) =~= all);
        let ghost made = self.deep_view();
        let ghost refs = open.deep_view();
        let mut j: usize = 0;
        assert(refs.take(0) =~= Seq::empty());
        while j < open.len()
            invariant
                j <= open.len(),
                refs == open.deep_view(),
                self.deep_view() == made.cards_settled(refs.take(j as int)),
            decreases open.len() - j,
        {
            let card = &open[j];
            proof {
                assert(refs.take(j + 1).drop_last() =~= refs.take(j as int));
                assert(refs.take(j + 1).last() == card.deep_view());
            }
            self.apply_card(card.id);
            self.forget_vote(card.id);
            self.emit(Event::Applied { id: card.id, surface: card.surface });
            j = j + 1;
        }
        assert(refs.take(j as int) =~= refs);
        self.settle_sealed_memberships(&blocks);
    }

    /// Settles the membership changes of the blocks, in order.
    fn settle_sealed_memberships(&mut self, blocks: &Vec<ChainBlock>)
        ensures
            final(self).deep_view() == old(self).deep_view().memberships_settled(
                blocks.deep_view(),
            ),
    {
        let ghost all = blocks.deep_view();
        let ghost s = self.deep_view();
        let mut i: usize = 0;
        assert(all.take(0) =~= Seq::empty());
        while i < blocks.len()
            invariant
                i <= blocks.len(),
                all == blocks.deep_view(),
                s == old(self).deep_view(),
                self.deep_view() == s.memberships_settled(all.take(i as int)),
            decreases blocks.len() - i,
        {
            proof {
                assert(all.take(i + 1).drop_last() =~= all.take(i as int));
                assert(all.take(i + 1).last() == blocks@[i as int].deep_view());
            }
            self.settle_membership_records(&blocks[i].change);
            i = i + 1;
        }
        assert(all.take(i as int) =~= all);
    }

    /// Projects the whole chain anew: what the chain no longer holds is gone.
    pub fn apply_chain_to_state(&mut self)
        ensures
            final(self).deep_view() == old(self).deep_view().chain_applied(),
    {
        let ghost s = self.deep_view();
        let mut groups: Vec<AppliedGroup> = match &self.checkpoint_blob {
            Some(blob) => seed_groups(&blob.applied),
            None => Vec::new(),
        };
        let ghost base = groups.deep_view();
        let mut sigs: Table<Vec<RosterAttestation>> = Table::new();
        let ghost all = self.blocks.deep_view();
        let mut i: usize = 0;
        proof {
            assert(all.take(0) =~= Seq::empty());
            assert(s.checkpoint_blob is None ==> base =~= Seq::empty());
        }
        while i < self.blocks.len()
            invariant
                i <= self.blocks.len(),
                all == self.blocks.deep_view(),
                self.deep_view() == s,
                groups.deep_view() == groups_through(base, all.take(i as int)),
                sigs.deep_view() == applied_sigs_through(all.take(i as int)),
            decreases self.blocks.len() - i,
        {
            proof {
                assert(all.take(i + 1).drop_last() =~= all.take(i as int));
                assert(all.take(i + 1).last() == self.blocks@[i as int].deep_view());
            }
            match &self.blocks[i].change {
                ChainChange::Applied { proposal_id, surface, payload } => {
                    add_entry(&mut groups, *surface, *proposal_id, payload);
                    sigs.insert(*proposal_id, self.blocks[i].sigs.clone());
                },
                _ => {},
            }
            i = i + 1;
        }
        assert(all.take(i as int) =~= all);
        let anchor_base: Vec<Anchor> = match &self.checkpoint_blob {
            Some(blob) => blob.anchors.clone(),
            None => Vec::new(),
        };
        let relay_base: Vec<RelayDeclaration> = match &self.checkpoint_blob {
            Some(blob) => blob.member_relays.clone(),
            None => Vec::new(),
        };
        proof {
            assert(s.checkpoint_blob is None ==> anchor_base.deep_view() =~= Seq::empty());
            assert(s.checkpoint_blob is None ==> relay_base.deep_view() =~= Seq::empty());
        }
        let anchors = fold_anchors(anchor_base, &self.blocks);
        let declared = fold_declarations(relay_base, &self.blocks);
        self.applied = groups;
        self.applied_sigs = sigs;
        self.doing(Effect::AppliedReset);
        self.settle_cards_against_chain();
        self.move_base(None, None);
        self.anchors = anchors;
        self.member_relays = declared;
        self.note_relay_splits();
        self.adopt_pool_change();
        self.adopt_head_roster();
    }

    /// Verifies a chain from outside and adopts it, projected anew. A chain
    /// that does not verify is refused in full.
    pub fn adopt_chain(&mut self, chain: Vec<ChainBlock>)
        ensures
            final(self).deep_view() == old(self).deep_view().adopting(chain.deep_view()),
    {
        match self.walk_own(chain.as_slice()) {
            Ok(walk) => {
                self.blocks = chain;
                self.head = Some(walk.head.clone());
                self.walk = Some(walk);
                self.bump_next_id_past_chain();
                self.apply_chain_to_state();
            },
            Err(_) => {
                self.blocks = Vec::new();
                assert(self.blocks.deep_view() =~= Seq::empty());
                self.head = None;
                self.set_checkpoint_blob(None);
            },
        }
    }
}

} // verus!
