//! The state that a chain folds to: what a checkpoint summarizes.

use crate::canonical;
use crate::canonical::checkpoint_canonical_bytes;
use crate::fault::{Fault, FaultV};
use crate::identity;
use crate::identity::content_hash;
use crate::model;
use crate::model::{
    Anchor, AnchorV, AppliedEntry, AppliedGroup, BlockV, ChainBlock, ChainChange, ChangeV,
    CheckpointState, DeclarationV, EntryV, GroupV, RelayDeclaration, SummaryV, Surface,
};
use crate::payload::{Payload, PayloadV};
use crate::signers;
use crate::signers::apply_membership;
use crate::text;
use crate::text::text_before;
use vstd::prelude::*;
use vstd::string::*;

verus! {

/// The slot that an applied entry occupies, if only the latest entry of its
/// slot matters. An entry without a slot accumulates.
pub open spec fn slot_of(surface: Surface, payload: PayloadV) -> Option<Seq<char>> {
    if surface != Surface::Organization {
        None
    } else if payload.has_op("set_name"@) {
        Some("name"@)
    } else if payload.has_op("set_charter"@) {
        Some("charter"@)
    } else if payload.has_op("set_image"@) || payload.has_op("remove_image"@) {
        Some("image"@)
    } else if payload.has_op("set_member_image"@) {
        match payload.text("member"@) {
            Some(m) => Some("member_image:"@ + m),
            None => None,
        }
    } else if payload.has_op("set_member_desc"@) {
        match payload.text("member"@) {
            Some(m) => Some("member_desc:"@ + m),
            None => None,
        }
    } else {
        None
    }
}

/// The slot that an applied entry occupies, if only the latest entry of its
/// slot matters.
pub fn applied_lww_slot(surface: Surface, payload: &Payload) -> (r: Option<String>)
    ensures
        r.deep_view() == slot_of(surface, payload.deep_view()),
{
    if surface != Surface::Organization {
        None
    } else if payload.has_op("set_name") {
        Some("name".to_owned())
    } else if payload.has_op("set_charter") {
        Some("charter".to_owned())
    } else if payload.has_op("set_image") || payload.has_op("remove_image") {
        Some("image".to_owned())
    } else if payload.has_op("set_member_image") {
        match payload.text("member") {
            Some(m) => {
                let mut slot: String = "member_image:".to_owned();
                slot.append(m.as_str());
                Some(slot)
            },
            None => None,
        }
    } else if payload.has_op("set_member_desc") {
        match payload.text("member") {
            Some(m) => {
                let mut slot: String = "member_desc:".to_owned();
                slot.append(m.as_str());
                Some(slot)
            },
            None => None,
        }
    } else {
        None
    }
}

/// The entries that do not occupy `slot`.
pub open spec fn outside_slot(surface: Surface, entries: Seq<EntryV>, slot: Seq<char>) -> Seq<EntryV>
    decreases entries.len(),
{
    if entries.len() == 0 {
        Seq::empty()
    } else {
        let rest = outside_slot(surface, entries.drop_last(), slot);
        if slot_of(surface, entries.last().payload) == Some(slot) {
            rest
        } else {
            rest.push(entries.last())
        }
    }
}

/// A surface's entries after one more: an entry supersedes the earlier ones
/// of its slot.
pub open spec fn entries_after(surface: Surface, entries: Seq<EntryV>, entry: EntryV) -> Seq<EntryV> {
    match slot_of(surface, entry.payload) {
        Some(slot) => outside_slot(surface, entries, slot).push(entry),
        None => entries.push(entry),
    }
}

/// The first group of that surface; the number of groups where there is none.
pub open spec fn group_at(groups: Seq<GroupV>, surface: Surface) -> nat
    decreases groups.len(),
{
    if groups.len() == 0 {
        0
    } else if groups[0].surface == surface {
        0
    } else {
        1 + group_at(groups.skip(1), surface)
    }
}

/// Where a missing group belongs: before the first group of a later surface.
pub open spec fn group_place(groups: Seq<GroupV>, surface: Surface) -> nat
    decreases groups.len(),
{
    if groups.len() == 0 {
        0
    } else if model::surface_rank(groups[0].surface) > model::surface_rank(surface) {
        0
    } else {
        1 + group_place(groups.skip(1), surface)
    }
}

pub proof fn lemma_group_at(groups: Seq<GroupV>, surface: Surface)
    ensures
        group_at(groups, surface) <= groups.len(),
        group_at(groups, surface) < groups.len() ==> groups[group_at(groups, surface) as int].surface
            == surface,
    decreases groups.len(),
{
    if groups.len() > 0 {
        lemma_group_at(groups.skip(1), surface);
    }
}

pub proof fn lemma_group_place(groups: Seq<GroupV>, surface: Surface)
    ensures
        group_place(groups, surface) <= groups.len(),
    decreases groups.len(),
{
    if groups.len() > 0 {
        lemma_group_place(groups.skip(1), surface);
    }
}

/// The groups after one more applied entry. A surface without a group gets
/// one in its place with its first entry.
pub open spec fn groups_after(groups: Seq<GroupV>, surface: Surface, entry: EntryV) -> Seq<GroupV> {
    let at = group_at(groups, surface) as int;
    if at < groups.len() {
        groups.update(
            at,
            GroupV { surface, entries: entries_after(surface, groups[at].entries, entry) },
        )
    } else {
        groups.insert(
            group_place(groups, surface) as int,
            GroupV { surface, entries: seq![entry] },
        )
    }
}

/// The transport anchors after a seat re-anchors, ascending by member.
pub open spec fn anchors_after(anchors: Seq<AnchorV>, member: Seq<char>, nostr_pk: Seq<char>) -> Seq<
    AnchorV,
>
    decreases anchors.len(),
{
    let new = AnchorV { member, nostr_pk };
    if anchors.len() == 0 {
        seq![new]
    } else if anchors.last().member == member {
        anchors.drop_last().push(new)
    } else if text::before(anchors.last().member, member) {
        anchors.push(new)
    } else {
        anchors_after(anchors.drop_last(), member, nostr_pk).push(anchors.last())
    }
}

/// The relay declarations after a seat declares, ascending by member.
pub open spec fn declarations_after(
    declared: Seq<DeclarationV>,
    member: Seq<char>,
    relays: Seq<Seq<char>>,
) -> Seq<DeclarationV>
    decreases declared.len(),
{
    let new = DeclarationV { member, relays };
    if declared.len() == 0 {
        seq![new]
    } else if declared.last().member == member {
        declared.drop_last().push(new)
    } else if text::before(declared.last().member, member) {
        declared.push(new)
    } else {
        declarations_after(declared.drop_last(), member, relays).push(declared.last())
    }
}

/// The state after one verified block. A genesis and a checkpoint leave it as
/// it is; an applied proposal's id is consumed even where its payload is
/// superseded.
pub open spec fn folded(state: SummaryV, block: BlockV) -> Result<SummaryV, FaultV> {
    match block.change {
        ChangeV::Applied { proposal_id, surface, payload } => Ok(
            SummaryV {
                applied: groups_after(
                    state.applied,
                    surface,
                    EntryV { id: proposal_id, payload },
                ),
                consumed_ids: state.consumed_ids.push(proposal_id),
                ..state
            },
        ),
        ChangeV::Membership { op, member, identity_pk, nostr_pk, relays, .. } => match signers::membership_fault(
            state.roster,
            op,
            member,
            identity_pk,
        ) {
            Some(e) => Err(e),
            None => Ok(
                SummaryV {
                    anchors: match nostr_pk {
                        Some(pk) => if pk.len() > 0 {
                            anchors_after(state.anchors, member, pk)
                        } else {
                            state.anchors
                        },
                        None => state.anchors,
                    },
                    member_relays: if relays.len() > 0 {
                        declarations_after(state.member_relays, member, relays)
                    } else {
                        state.member_relays
                    },
                    ..state
                },
            ),
        },
        _ => Ok(state),
    }
}

/// Drops the entries that occupy `slot`.
fn drop_slot(surface: Surface, entries: &Vec<AppliedEntry>, slot: &String) -> (r: Vec<AppliedEntry>)
    ensures
        r.deep_view() == outside_slot(surface, entries.deep_view(), slot@),
{
    let ghost all = entries.deep_view();
    let mut out: Vec<AppliedEntry> = Vec::new();
    let mut i: usize = 0;
    assert(all.take(0) =~= Seq::empty());
    assert(out.deep_view() =~= Seq::empty());
    while i < entries.len()
        invariant
            i <= entries.len(),
            all == entries.deep_view(),
            out.deep_view() == outside_slot(surface, all.take(i as int), slot@),
        decreases entries.len() - i,
    {
        proof {
            assert(all.take(i + 1).drop_last() =~= all.take(i as int));
            assert(all.take(i + 1).last() == entries@[i as int].deep_view());
        }
        let taken = applied_lww_slot(surface, &entries[i].payload);
        let same = match &taken {
            Some(s) => *s == *slot,
            None => false,
        };
        if !same {
            let ghost before = out.deep_view();
            out.push(entries[i].clone());
            assert(out.deep_view() =~= before.push(all[i as int]));
        }
        i = i + 1;
    }
    assert(all.take(i as int) =~= all);
    out
}

/// The entries of a surface.
pub open spec fn entries_of(groups: Seq<GroupV>, surface: Surface) -> Seq<EntryV> {
    let at = group_at(groups, surface) as int;
    if at < groups.len() {
        groups[at].entries
    } else {
        Seq::empty()
    }
}

/// Where the group of that surface stands.
pub fn find_group(groups: &Vec<AppliedGroup>, surface: Surface) -> (r: usize)
    ensures
        r == group_at(groups.deep_view(), surface),
        r <= groups.len(),
{
    let ghost all = groups.deep_view();
    let mut at: usize = 0;
    assert(all.skip(0) =~= all);
    while at < groups.len() && groups[at].surface != surface
        invariant
            at <= groups.len(),
            all == groups.deep_view(),
            group_at(all, surface) == at + group_at(all.skip(at as int), surface),
        decreases groups.len() - at,
    {
        assert(all.skip(at as int)[0] == groups@[at as int].deep_view());
        assert(all.skip(at as int).skip(1) =~= all.skip(at + 1));
        at = at + 1;
    }
    proof {
        if at < groups.len() {
            assert(all.skip(at as int)[0] == groups@[at as int].deep_view());
        } else {
            assert(all.skip(at as int) =~= Seq::empty());
        }
    }
    at
}

/// Adds an applied entry to its surface's group.
fn fold_applied(groups: &mut Vec<AppliedGroup>, surface: Surface, id: u64, payload: &Payload)
    ensures
        final(groups).deep_view() == groups_after(
            old(groups).deep_view(),
            surface,
            EntryV { id, payload: payload.deep_view() },
        ),
{
    let ghost all = groups.deep_view();
    let ghost new = EntryV { id, payload: payload.deep_view() };
    let at = find_group(groups, surface);
    if at < groups.len() {
        assert(all[at as int] == groups@[at as int].deep_view());
        let mut entries: Vec<AppliedEntry> = match applied_lww_slot(surface, payload) {
            Some(slot) => drop_slot(surface, &groups[at].entries, &slot),
            None => groups[at].entries.clone(),
        };
        let ghost kept = entries.deep_view();
        entries.push(AppliedEntry { id, payload: payload.clone() });
        assert(entries.deep_view() =~= kept.push(new));
        groups[at] = AppliedGroup { surface, entries };
        assert(groups.deep_view() =~= groups_after(all, surface, new));
    } else {
        let mut place: usize = 0;
        assert(all.skip(0) =~= all);
        while place < groups.len() && groups[place].surface.rank() <= surface.rank()
            invariant
                place <= groups.len(),
                all == groups.deep_view(),
                group_place(all, surface) == place + group_place(all.skip(place as int), surface),
            decreases groups.len() - place,
        {
            assert(all.skip(place as int)[0] == groups@[place as int].deep_view());
            assert(all.skip(place as int).skip(1) =~= all.skip(place + 1));
            place = place + 1;
        }
        proof {
            if place < groups.len() {
                assert(all.skip(place as int)[0] == groups@[place as int].deep_view());
            } else {
                assert(all.skip(place as int) =~= Seq::empty());
            }
        }
        let entry = AppliedEntry { id, payload: payload.clone() };
        let entries: Vec<AppliedEntry> = vec![entry];
        assert(entries.deep_view() =~= seq![new]);
        groups.insert(place, AppliedGroup { surface, entries });
        assert(groups.deep_view() =~= groups_after(all, surface, new));
    }
}

/// Re-anchors a seat.
pub fn set_anchor(anchors: &mut Vec<Anchor>, member: &String, nostr_pk: &String)
    ensures
        final(anchors).deep_view() == anchors_after(old(anchors).deep_view(), member@, nostr_pk@),
    decreases old(anchors).len(),
{
    let ghost all = anchors.deep_view();
    match anchors.pop() {
        None => {
            anchors.push(Anchor { member: member.clone(), nostr_pk: nostr_pk.clone() });
            assert(all.len() == 0);
            assert(anchors.deep_view() =~= anchors_after(all, member@, nostr_pk@));
        },
        Some(last) => {
            assert(all.last() == last.deep_view());
            assert(anchors.deep_view() =~= all.drop_last());
            if last.member == *member {
                anchors.push(Anchor { member: member.clone(), nostr_pk: nostr_pk.clone() });
                assert(anchors.deep_view() =~= anchors_after(all, member@, nostr_pk@));
            } else if text_before(last.member.as_str(), member.as_str()) {
                anchors.push(last);
                anchors.push(Anchor { member: member.clone(), nostr_pk: nostr_pk.clone() });
                assert(anchors.deep_view() =~= anchors_after(all, member@, nostr_pk@));
            } else {
                set_anchor(anchors, member, nostr_pk);
                let ghost inner = anchors.deep_view();
                anchors.push(last);
                assert(anchors.deep_view() =~= inner.push(all.last()));
            }
        },
    }
}

/// Records a seat's declaration.
pub fn set_declaration(declared: &mut Vec<RelayDeclaration>, member: &String, relays: &Vec<String>)
    ensures
        final(declared).deep_view() == declarations_after(
            old(declared).deep_view(),
            member@,
            relays.deep_view(),
        ),
    decreases old(declared).len(),
{
    let ghost all = declared.deep_view();
    match declared.pop() {
        None => {
            declared.push(RelayDeclaration { member: member.clone(), relays: relays.clone() });
            assert(all.len() == 0);
            assert(declared.deep_view() =~= declarations_after(all, member@, relays.deep_view()));
        },
        Some(last) => {
            assert(all.last() == last.deep_view());
            assert(declared.deep_view() =~= all.drop_last());
            if last.member == *member {
                declared.push(RelayDeclaration { member: member.clone(), relays: relays.clone() });
                assert(declared.deep_view() =~= declarations_after(all, member@, relays.deep_view()));
            } else if text_before(last.member.as_str(), member.as_str()) {
                declared.push(last);
                declared.push(RelayDeclaration { member: member.clone(), relays: relays.clone() });
                assert(declared.deep_view() =~= declarations_after(all, member@, relays.deep_view()));
            } else {
                set_declaration(declared, member, relays);
                let ghost inner = declared.deep_view();
                declared.push(last);
                assert(declared.deep_view() =~= inner.push(all.last()));
            }
        },
    }
}

/// Folds one verified block into a running state. A refused block leaves the
/// state as it was.
pub fn fold_one(state: &mut CheckpointState, block: &ChainBlock) -> (r: Result<(), Fault>)
    ensures
        match r {
            Ok(()) => folded(old(state).deep_view(), block.deep_view()) == Ok::<SummaryV, FaultV>(
                final(state).deep_view(),
            ),
            Err(e) => {
                &&& folded(old(state).deep_view(), block.deep_view()) == Err::<SummaryV, FaultV>(
                    e.deep_view(),
                )
                &&& final(state).deep_view() == old(state).deep_view()
            },
        },
{
    match &block.change {
        ChainChange::Applied { proposal_id, surface, payload } => {
            let ghost ids = state.consumed_ids.deep_view();
            fold_applied(&mut state.applied, *surface, *proposal_id, payload);
            state.consumed_ids.push(*proposal_id);
            assert(state.consumed_ids.deep_view() =~= ids.push(*proposal_id));
        },
        ChainChange::Membership { op, member, identity_pk, nostr_pk, relays, consent: _ } => {
            match apply_membership(&mut state.roster, *op, member.as_str(), identity_pk.as_str()) {
                Ok(()) => {},
                Err(e) => {
                    return Err(e);
                },
            }
            match nostr_pk {
                Some(pk) => {
                    if !pk.as_str().is_empty() {
                        set_anchor(&mut state.anchors, member, pk);
                    }
                },
                None => {},
            }
            if relays.len() > 0 {
                set_declaration(&mut state.member_relays, member, relays);
            }
        },
        ChainChange::Genesis { .. } => {},
        ChainChange::Checkpoint { .. } => {},
    }
    Ok(())
}

/// `id` put into its place in an ascending list.
pub open spec fn insert_id(ids: Seq<u64>, id: u64) -> Seq<u64>
    decreases ids.len(),
{
    if ids.len() == 0 {
        seq![id]
    } else if ids.last() <= id {
        ids.push(id)
    } else {
        insert_id(ids.drop_last(), id).push(ids.last())
    }
}

/// The ids in ascending order.
pub open spec fn sorted_ids(ids: Seq<u64>) -> Seq<u64>
    decreases ids.len(),
{
    if ids.len() == 0 {
        ids
    } else {
        insert_id(sorted_ids(ids.drop_last()), ids.last())
    }
}

pub open spec fn ids_ascend(ids: Seq<u64>) -> bool {
    forall|i: int, j: int| 0 <= i < j < ids.len() ==> ids[i] <= ids[j]
}

pub proof fn lemma_insert_id(ids: Seq<u64>, id: u64)
    requires
        ids_ascend(ids),
    ensures
        ids_ascend(insert_id(ids, id)),
        insert_id(ids, id).to_multiset() == ids.to_multiset().insert(id),
        insert_id(ids, id).len() == ids.len() + 1,
        ids.len() > 0 && id < ids.last() ==> insert_id(ids, id).last() == ids.last(),
        ids.len() == 0 || ids.last() <= id ==> insert_id(ids, id).last() == id,
    decreases ids.len(),
{
    broadcast use vstd::seq_lib::group_to_multiset_ensures;

    let out = insert_id(ids, id);
    if ids.len() == 0 {
        assert(out =~= ids.push(id));
    } else if ids.last() <= id {
        assert(out =~= ids.push(id));
    } else {
        let front = ids.drop_last();
        lemma_insert_id(front, id);
        let inner = insert_id(front, id);
        assert(ids =~= front.push(ids.last()));
        assert forall|i: int, j: int| 0 <= i < j < out.len() implies out[i] <= out[j] by {
            if j == inner.len() {
                assert(inner[i] <= inner.last());
            }
        }
        assert(out.to_multiset() == inner.to_multiset().insert(ids.last()));
        assert(ids.to_multiset() == front.to_multiset().insert(ids.last()));
        assert(out.to_multiset() =~= ids.to_multiset().insert(id));
    }
}

/// Sorting keeps every id and orders them.
pub proof fn sorting_orders_and_keeps(ids: Seq<u64>)
    ensures
        ids_ascend(sorted_ids(ids)),
        sorted_ids(ids).to_multiset() == ids.to_multiset(),
        sorted_ids(ids).len() == ids.len(),
    decreases ids.len(),
{
    broadcast use vstd::seq_lib::group_to_multiset_ensures;

    if ids.len() > 0 {
        sorting_orders_and_keeps(ids.drop_last());
        lemma_insert_id(sorted_ids(ids.drop_last()), ids.last());
        assert(ids =~= ids.drop_last().push(ids.last()));
        assert(ids.to_multiset() == ids.drop_last().to_multiset().insert(ids.last()));
    }
}

/// Puts `id` into its place in an ascending list.
pub fn place_id(ids: &mut Vec<u64>, id: u64)
    ensures
        final(ids)@ == insert_id(old(ids)@, id),
{
    let ghost all = ids@;
    let mut at: usize = ids.len();
    proof {
        assert(all.take(at as int) =~= all);
        assert(all.skip(at as int) =~= Seq::empty());
        assert(insert_id(all, id) + Seq::<u64>::empty() =~= insert_id(all, id));
    }
    while at > 0 && ids[at - 1] > id
        invariant
            at <= ids.len(),
            ids@ == all,
            insert_id(all, id) == insert_id(all.take(at as int), id) + all.skip(at as int),
        decreases at,
    {
        proof {
            assert(all.take(at as int).drop_last() =~= all.take(at - 1));
            assert(all.take(at as int).last() == all[at - 1]);
            assert(insert_id(all.take(at - 1), id).push(all[at - 1]) + all.skip(at as int)
                =~= insert_id(all.take(at - 1), id) + all.skip(at - 1));
        }
        at = at - 1;
    }
    ids.insert(at, id);
    proof {
        if at > 0 {
            assert(all.take(at as int).last() == all[at - 1]);
        } else {
            assert(all.take(0) =~= Seq::empty());
        }
        assert(ids@ =~= insert_id(all.take(at as int), id) + all.skip(at as int));
    }
}

/// The ids in ascending order.
pub fn sort_ids(ids: &Vec<u64>) -> (r: Vec<u64>)
    ensures
        r@ == sorted_ids(ids@),
{
    let mut out: Vec<u64> = Vec::new();
    let mut i: usize = 0;
    assert(ids@.take(0) =~= Seq::empty());
    while i < ids.len()
        invariant
            i <= ids.len(),
            out@ == sorted_ids(ids@.take(i as int)),
        decreases ids.len() - i,
    {
        assert(ids@.take(i + 1).drop_last() =~= ids@.take(i as int));
        place_id(&mut out, ids[i]);
        i = i + 1;
    }
    assert(ids@.take(i as int) =~= ids@);
    out
}

/// A `Vec` of numbers is its own deep view.
pub proof fn lemma_ids_view(v: Vec<u64>)
    ensures
        v.deep_view() == v@,
{
    assert(v.deep_view() =~= v@);
}

/// A running state as the canonical state at `upto`.
pub open spec fn cut_at(state: SummaryV, upto: u64) -> SummaryV {
    SummaryV { consumed_ids: sorted_ids(state.consumed_ids), upto, ..state }
}

/// The hash that a checkpoint of `state` carries.
pub open spec fn state_hash_of(state: SummaryV) -> Seq<char> {
    identity::hash_text(canonical::checkpoint_bytes_of(state))
}

/// The hash that a checkpoint of `state` carries.
pub fn checkpoint_state_hash(state: &CheckpointState) -> (r: String)
    ensures
        r@ == state_hash_of(state.deep_view()),
{
    let bytes = checkpoint_canonical_bytes(state);
    content_hash(bytes.as_slice())
}

/// The running state's hash as the canonical state at `upto`.
pub fn hash_walk_state(state: &CheckpointState, upto: u64) -> (r: String)
    ensures
        r@ == state_hash_of(cut_at(state.deep_view(), upto)),
{
    let mut at = state.clone();
    at.upto = upto;
    let sorted = sort_ids(&state.consumed_ids);
    proof {
        lemma_ids_view(sorted);
        lemma_ids_view(state.consumed_ids);
    }
    at.consumed_ids = sorted;
    checkpoint_state_hash(&at)
}

/// The empty state that a founding roots.
pub open spec fn founded_state(change: ChangeV) -> Option<SummaryV> {
    match change {
        ChangeV::Genesis { name, republic_id, rule_m, rule_n, identities, agenda, features, relays } => Some(
            SummaryV {
                founding_name: name,
                rule_m,
                rule_n,
                founding_identities: identities,
                agenda,
                republic_id,
                relays,
                founding_features: features,
                roster: identities,
                applied: empty_groups(),
                consumed_ids: Seq::empty(),
                anchors: Seq::empty(),
                member_relays: Seq::empty(),
                upto: 0,
            },
        ),
        _ => None,
    }
}

/// One empty group for each surface.
pub open spec fn empty_groups() -> Seq<GroupV> {
    Seq::new(
        model::all_surfaces().len(),
        |i: int| GroupV { surface: model::all_surfaces()[i], entries: Seq::empty() },
    )
}

/// The empty state that a founding roots; none for any other change.
pub fn genesis_base(change: &ChainChange) -> (r: Option<CheckpointState>)
    ensures
        r.deep_view() == founded_state(change.deep_view()),
{
    match change {
        ChainChange::Genesis {
            name,
            republic_id,
            rule_m,
            rule_n,
            identities,
            agenda,
            features,
            relays,
        } => {
            let surfaces = Surface::all();
            let mut applied: Vec<AppliedGroup> = Vec::new();
            let mut i: usize = 0;
            while i < surfaces.len()
                invariant
                    i <= surfaces.len(),
                    surfaces@ == model::all_surfaces(),
                    applied.deep_view() == empty_groups().take(i as int),
                decreases surfaces.len() - i,
            {
                let entries: Vec<AppliedEntry> = Vec::new();
                assert(entries.deep_view() =~= Seq::empty());
                let ghost done = applied.deep_view();
                applied.push(AppliedGroup { surface: surfaces[i], entries });
                assert(applied.deep_view() =~= done.push(empty_groups()[i as int]));
                i = i + 1;
                assert(applied.deep_view() =~= empty_groups().take(i as int));
            }
            assert(applied.deep_view() =~= empty_groups());
            let state = CheckpointState {
                founding_name: name.clone(),
                rule_m: *rule_m,
                rule_n: *rule_n,
                founding_identities: identities.clone(),
                agenda: agenda.clone(),
                republic_id: republic_id.clone(),
                relays: relays.clone(),
                founding_features: features.clone(),
                roster: identities.clone(),
                applied,
                consumed_ids: Vec::new(),
                anchors: Vec::new(),
                member_relays: Vec::new(),
                upto: 0,
            };
            proof {
                assert(state.consumed_ids.deep_view() =~= Seq::empty());
                assert(state.anchors.deep_view() =~= Seq::empty());
                assert(state.member_relays.deep_view() =~= Seq::empty());
            }
            Some(state)
        },
        _ => None,
    }
}

/// The blocks up to height `upto` folded onto a state; a block above it ends
/// the fold.
pub open spec fn folded_through(state: SummaryV, blocks: Seq<BlockV>, upto: u64) -> Result<
    SummaryV,
    FaultV,
>
    decreases blocks.len(),
{
    if blocks.len() == 0 || blocks[0].height > upto {
        Ok(state)
    } else {
        match folded(state, blocks[0]) {
            Err(e) => Err(e),
            Ok(next) => folded_through(next, blocks.skip(1), upto),
        }
    }
}

/// The canonical state at `upto`: the blocks up to there folded onto a base.
pub open spec fn state_through(base: SummaryV, blocks: Seq<BlockV>, upto: u64) -> Result<
    SummaryV,
    FaultV,
> {
    match folded_through(base, blocks, upto) {
        Err(e) => Err(e),
        Ok(state) => Ok(cut_at(state, upto)),
    }
}

/// Folds the blocks of `blocks[from..]` up to height `upto` onto a base: the
/// same fold whether the base is a founding or a checkpoint's summary.
pub fn fold_state_from(base: CheckpointState, blocks: &[ChainBlock], from: usize, upto: u64) -> (r:
    Result<CheckpointState, Fault>)
    requires
        from <= blocks@.len(),
    ensures
        match r {
            Ok(s) => state_through(
                base.deep_view(),
                blocks.deep_view().skip(from as int),
                upto,
            ) == Ok::<SummaryV, FaultV>(s.deep_view()),
            Err(e) => state_through(
                base.deep_view(),
                blocks.deep_view().skip(from as int),
                upto,
            ) == Err::<SummaryV, FaultV>(e.deep_view()),
        },
{
    let ghost all = blocks.deep_view();
    let ghost start = base.deep_view();
    let mut state = base;
    let mut i: usize = from;
    while i < blocks.len() && blocks[i].height <= upto
        invariant
            from <= i <= blocks@.len(),
            start == base.deep_view(),
            all == blocks.deep_view(),
            folded_through(start, all.skip(from as int), upto) == folded_through(
                state.deep_view(),
                all.skip(i as int),
                upto,
            ),
        decreases blocks.len() - i,
    {
        assert(all.skip(i as int)[0] == blocks@[i as int].deep_view());
        match fold_one(&mut state, &blocks[i]) {
            Ok(()) => {},
            Err(e) => {
                return Err(e);
            },
        }
        assert(all.skip(i as int).skip(1) =~= all.skip(i + 1));
        i = i + 1;
    }
    proof {
        if i < blocks@.len() {
            assert(all.skip(i as int)[0] == blocks@[i as int].deep_view());
        }
    }
    let sorted = sort_ids(&state.consumed_ids);
    proof {
        lemma_ids_view(sorted);
        lemma_ids_view(state.consumed_ids);
    }
    state.consumed_ids = sorted;
    state.upto = upto;
    Ok(state)
}

/// Folds further verified blocks up to height `upto` onto a base.
pub fn fold_state(base: CheckpointState, blocks: &[ChainBlock], upto: u64) -> (r: Result<
    CheckpointState,
    Fault,
>)
    ensures
        match r {
            Ok(s) => state_through(base.deep_view(), blocks.deep_view(), upto) == Ok::<
                SummaryV,
                FaultV,
            >(s.deep_view()),
            Err(e) => state_through(base.deep_view(), blocks.deep_view(), upto) == Err::<
                SummaryV,
                FaultV,
            >(e.deep_view()),
        },
{
    assert(blocks.deep_view().skip(0) =~= blocks.deep_view());
    fold_state_from(base, blocks, 0, upto)
}

/// The canonical state at `upto` of a chain that starts with its founding.
pub open spec fn summary_of(blocks: Seq<BlockV>, upto: u64) -> Result<SummaryV, FaultV> {
    if blocks.len() == 0 {
        Err(FaultV::NoGenesis)
    } else {
        match founded_state(blocks[0].change) {
            None => Err(FaultV::NoGenesis),
            Some(base) => state_through(base, blocks.skip(1), upto),
        }
    }
}

/// Folds the state that a checkpoint at `upto` attests from a verified chain.
pub fn checkpoint_state(blocks: &[ChainBlock], upto: u64) -> (r: Result<CheckpointState, Fault>)
    ensures
        match r {
            Ok(s) => summary_of(blocks.deep_view(), upto) == Ok::<SummaryV, FaultV>(s.deep_view()),
            Err(e) => summary_of(blocks.deep_view(), upto) == Err::<SummaryV, FaultV>(
                e.deep_view(),
            ),
        },
{
    if blocks.len() == 0 {
        return Err(Fault::NoGenesis);
    }
    assert(blocks.deep_view()[0] == blocks@[0].deep_view());
    match genesis_base(&blocks[0].change) {
        None => Err(Fault::NoGenesis),
        Some(base) => fold_state_from(base, blocks, 1, upto),
    }
}

} // verus!
