//! What holds of folding the wiki patches of a summary into one entry, and of
//! the patches that are open while the wiki moves.

use crate::canonical::Canonical;
use crate::identity;
use crate::model::{EntryV, GroupV, SummaryV, Surface};
use crate::patches;
use crate::payload;
use crate::payload::PayloadV;
use crate::state::{EffectV, ProposalState, RecordV, StateV};
use crate::wiki_base;
use crate::wiki_base::PlanV;
use crate::wiki_tree::{FileV, WikiFile};
use vstd::prelude::*;

verus! {

/// The tags of wiki entries are told apart.
proof fn lemma_tags()
    ensures
        "wiki_patch"@ != "wiki_base"@,
        "op"@ != "hash"@,
        "op"@ != "size"@,
        "hash"@ != "size"@,
{
    reveal_strlit("wiki_patch");
    reveal_strlit("wiki_base");
    reveal_strlit("op");
    reveal_strlit("hash");
    reveal_strlit("size");
    assert("wiki_patch"@.len() == 10);
    assert("wiki_base"@.len() == 9);
    assert("op"@.len() == 2);
    assert("hash"@[0] == 'h');
    assert("size"@[0] == 's');
}

/// Is that entry a wiki patch?
pub open spec fn patches_wiki(e: EntryV) -> bool {
    e.payload.text("op"@) == Some("wiki_patch"@)
}

/// Does that entry stand for folded patches?
pub open spec fn sums_wiki(e: EntryV) -> bool {
    e.payload.text("op"@) == Some("wiki_base"@)
}

/// Is that entry neither?
pub open spec fn other_entry(e: EntryV) -> bool {
    !patches_wiki(e) && !sums_wiki(e)
}

/// The patches among the entries, in order.
pub open spec fn patches_in(group: Seq<EntryV>) -> Seq<PayloadV> {
    group.filter(|e: EntryV| patches_wiki(e)).map_values(|e: EntryV| e.payload)
}

/// A plan for a group and one more entry.
proof fn lemma_plan_push(group: Seq<EntryV>, entry: EntryV, base: Seq<FileV>)
    ensures
        wiki_base::plan_of(group.push(entry), base) == (match wiki_base::plan_of(group, base) {
            Ok(plan) => wiki_base::plan_step(plan, base, entry),
            Err(e) => Err(e),
        }),
{
    assert(group.push(entry).drop_last() =~= group);
}

/// Patches that were not folded before are all folded, in order, from nothing;
/// whatever is no wiki is kept, in order.
pub proof fn every_patch_is_folded_in_order(group: Seq<EntryV>, base: Seq<FileV>)
    requires
        forall|k: int| 0 <= k < group.len() ==> !sums_wiki(#[trigger] group[k]),
    ensures
        wiki_base::plan_of(group, base) == Ok::<PlanV, Seq<char>>(
            PlanV {
                onto_base: false,
                patches: patches_in(group),
                kept: group.filter(|e: EntryV| other_entry(e)),
            },
        ),
    decreases group.len(),
{
    reveal(Seq::filter);
    lemma_tags();
    let f = |e: EntryV| e.payload;
    if group.len() == 0 {
        assert(patches_in(group) =~= Seq::empty());
        assert(group.filter(|e: EntryV| other_entry(e)) =~= Seq::empty());
    } else {
        let front = group.drop_last();
        let top = group.last();
        assert forall|k: int| 0 <= k < front.len() implies !sums_wiki(#[trigger] front[k]) by {
            assert(front[k] == group[k]);
        }
        assert(!sums_wiki(group[group.len() - 1]));
        every_patch_is_folded_in_order(front, base);
        let less = front.filter(|e: EntryV| patches_wiki(e));
        if patches_wiki(top) {
            assert(less.push(top).map_values(f) =~= less.map_values(f).push(top.payload));
        }
    }
}

/// Patches above an entry that stands for folded ones are folded onto the tree
/// that it commits to, in order; those below it are in that tree already.
/// Whatever is no wiki is kept, in order.
pub proof fn patches_are_folded_onto_the_committed_tree(
    below: Seq<EntryV>,
    sum: EntryV,
    above: Seq<EntryV>,
    base: Seq<FileV>,
)
    requires
        sums_wiki(sum),
        sum.payload.text("hash"@) == Some(
            identity::hash_text(wiki_base::tree_bytes(base)),
        ),
        forall|k: int| 0 <= k < below.len() ==> !sums_wiki(#[trigger] below[k]),
        forall|k: int| 0 <= k < above.len() ==> !sums_wiki(#[trigger] above[k]),
    ensures
        wiki_base::plan_of(below.push(sum) + above, base) == Ok::<PlanV, Seq<char>>(
            PlanV {
                onto_base: true,
                patches: patches_in(above),
                kept: below.filter(|e: EntryV| other_entry(e)) + above.filter(
                    |e: EntryV| other_entry(e),
                ),
            },
        ),
    decreases above.len(),
{
    reveal(Seq::filter);
    lemma_tags();
    let group = below.push(sum) + above;
    let f = |e: EntryV| e.payload;
    let low = below.filter(|e: EntryV| other_entry(e));
    if above.len() == 0 {
        every_patch_is_folded_in_order(below, base);
        assert(group =~= below.push(sum));
        lemma_plan_push(below, sum, base);
        assert(patches_in(above) =~= Seq::empty());
        assert(low + above.filter(|e: EntryV| other_entry(e)) =~= low);
    } else {
        let front = above.drop_last();
        let top = above.last();
        assert forall|k: int| 0 <= k < front.len() implies !sums_wiki(#[trigger] front[k]) by {
            assert(front[k] == above[k]);
        }
        assert(!sums_wiki(above[above.len() - 1]));
        patches_are_folded_onto_the_committed_tree(below, sum, front, base);
        assert(group =~= (below.push(sum) + front).push(top));
        lemma_plan_push(below.push(sum) + front, top, base);
        let less = front.filter(|e: EntryV| patches_wiki(e));
        let kept = front.filter(|e: EntryV| other_entry(e));
        if patches_wiki(top) {
            assert(less.push(top).map_values(f) =~= less.map_values(f).push(top.payload));
        } else {
            assert(low + kept.push(top) =~= (low + kept).push(top));
        }
    }
}

/// An entry that commits to another tree than the one held is refused, and so
/// is a second one.
pub proof fn a_foreign_commitment_is_refused(
    below: Seq<EntryV>,
    sum: EntryV,
    base: Seq<FileV>,
)
    requires
        sums_wiki(sum),
    ensures
        (exists|k: int| 0 <= k < below.len() && sums_wiki(#[trigger] below[k]))
            ==> wiki_base::plan_of(below.push(sum), base) is Err,
        sum.payload.text("hash"@) is Some && sum.payload.text("hash"@)->0 != identity::hash_text(
            wiki_base::tree_bytes(base),
        ) ==> wiki_base::plan_of(below.push(sum), base) is Err,
{
    lemma_plan_push(below, sum, base);
    lemma_onto(below, base);
}

/// A plan builds on the held tree where the group commits to one.
proof fn lemma_onto(group: Seq<EntryV>, base: Seq<FileV>)
    ensures
        wiki_base::plan_of(group, base) matches Ok(plan) ==> (plan.onto_base <==> exists|k: int|
            0 <= k < group.len() && sums_wiki(#[trigger] group[k])),
    decreases group.len(),
{
    if group.len() > 0 {
        let front = group.drop_last();
        lemma_onto(front, base);
        assert(group[group.len() - 1] == group.last());
        if exists|k: int| 0 <= k < front.len() && sums_wiki(#[trigger] front[k]) {
            let k = choose|k: int| 0 <= k < front.len() && sums_wiki(#[trigger] front[k]);
            assert(group[k] == front[k]);
        }
        if exists|k: int| 0 <= k < group.len() && sums_wiki(#[trigger] group[k]) {
            let k = choose|k: int| 0 <= k < group.len() && sums_wiki(#[trigger] group[k]);
            if k < front.len() {
                assert(front[k] == group[k]);
            }
        }
    }
}

/// The entry that stands for folded patches says so, and names the hash and the
/// size of the bytes of the tree.
pub proof fn a_folded_entry_names_its_tree(tree: Seq<FileV>)
    ensures
        ({
            let p = wiki_base::base_entry_of(tree).payload;
            &&& wiki_base::base_entry_of(tree).id == 0
            &&& p.text("op"@) == Some("wiki_base"@)
            &&& p.text("hash"@) == Some(identity::hash_text(wiki_base::tree_bytes(tree)))
            &&& p.count("size"@) == Some(wiki_base::tree_bytes(tree).len() as u64)
        }),
{
    lemma_tags();
    reveal_with_fuel(payload::field_of, 4);
    let fields = wiki_base::base_entry_of(tree).payload->Object_0;
    assert(fields.skip(1)[0] == fields[1]);
    assert(fields.skip(1).skip(1)[0] == fields[2]);
}

/// The bytes of a tree bind every path and every content in it.
pub proof fn tree_bytes_are_binding(a: Seq<FileV>, b: Seq<FileV>)
    requires
        wiki_base::tree_bytes(a) == wiki_base::tree_bytes(b),
    ensures
        a == b,
{
    let tag = vstd::utf8::encode_utf8("molt-wiki-base-v1\0"@);
    let x = <Vec<WikiFile> as Canonical>::bytes_of(a);
    let y = <Vec<WikiFile> as Canonical>::bytes_of(b);
    assert(wiki_base::tree_bytes(a).skip(tag.len() as int) =~= x);
    assert(wiki_base::tree_bytes(b).skip(tag.len() as int) =~= y);
    assert(x + Seq::<u8>::empty() =~= y + Seq::<u8>::empty());
    <Vec<WikiFile> as Canonical>::prefix_free(a, b, Seq::empty(), Seq::empty());
}

/// The memory group is the first of that surface.
proof fn lemma_memory(groups: Seq<GroupV>, g: int)
    requires
        0 <= g < groups.len(),
        groups[g].surface == Surface::Memory,
        forall|j: int| 0 <= j < g ==> (#[trigger] groups[j]).surface != Surface::Memory,
    ensures
        wiki_base::memory_place(groups) == Some(g as nat),
    decreases groups.len(),
{
    if g > 0 {
        assert(groups[0].surface != Surface::Memory);
        let rest = groups.skip(1);
        assert(rest[g - 1] == groups[g]);
        assert forall|j: int| 0 <= j < g - 1 implies (#[trigger] rest[j]).surface
            != Surface::Memory by {
            assert(rest[j] == groups[j + 1]);
        }
        lemma_memory(rest, g - 1);
    }
}

/// Folding a summary changes its memory group alone: one entry that stands for
/// the tree comes first, then what is no wiki; everything else of the summary
/// stays. There is something to fold exactly where that group holds wiki.
pub proof fn folding_touches_the_memory_alone(
    state: SummaryV,
    plan: PlanV,
    tree: Seq<FileV>,
    g: int,
)
    requires
        0 <= g < state.applied.len(),
        state.applied[g].surface == Surface::Memory,
        forall|j: int|
            0 <= j < g ==> (#[trigger] state.applied[j]).surface != Surface::Memory,
    ensures
        ({
            let w = wiki_base::state_folded(state, plan, tree);
            let now = w.applied[g];
            &&& w == SummaryV { applied: w.applied, ..state }
            &&& w.applied == state.applied.update(g, now)
            &&& now.surface == Surface::Memory
            &&& now.entries.len() == plan.kept.len() + 1
            &&& now.entries[0] == wiki_base::base_entry_of(tree)
            &&& now.entries.skip(1) == plan.kept
        }),
        wiki_base::foldable(state) <==> exists|k: int|
            0 <= k < state.applied[g].entries.len() && (patches_wiki(
                #[trigger] state.applied[g].entries[k],
            ) || sums_wiki(state.applied[g].entries[k])),
{
    lemma_memory(state.applied, g);
    let w = wiki_base::state_folded(state, plan, tree);
    assert(w.applied[g].entries.skip(1) =~= plan.kept);
    let list = state.applied[g].entries;
    if exists|k: int| 0 <= k < list.len() && (patches_wiki(#[trigger] list[k]) || sums_wiki(list[k])) {
        let k = choose|k: int|
            0 <= k < list.len() && (patches_wiki(#[trigger] list[k]) || sums_wiki(list[k]));
        assert(wiki_base::is_wiki(list[k]));
    }
    if wiki_base::foldable(state) {
        let k = choose|k: int| 0 <= k < list.len() && wiki_base::is_wiki(#[trigger] list[k]);
        assert(patches_wiki(list[k]) || sums_wiki(list[k]));
    }
}

/// Is that card an open patch of the wiki?
pub open spec fn open_wiki_card(p: RecordV) -> bool {
    &&& p.state == ProposalState::Proposed
    &&& p.surface == Surface::Memory
    &&& p.payload.text("op"@) == Some("wiki_patch"@)
}

/// Once the wiki moved, the host is asked about exactly the patches that are
/// open, in the order of their ids, but for the one that moved it; where none
/// is open it is not asked.
pub proof fn the_host_is_asked_about_every_open_patch(
    s: StateV,
    by: Option<PayloadV>,
    except: Option<u64>,
)
    ensures
        ({
            let w = s.base_moved(by, except);
            let open = s.proposals.filter(
                |r: (u64, RecordV)| open_wiki_card(r.1) && except != Some(r.0),
            ).map_values(|r: (u64, RecordV)| r.0);
            &&& open.len() == 0 ==> w == s
            &&& open.len() > 0 ==> {
                &&& w.effects == s.effects.push(EffectV::WikiMoved { by, open })
                &&& w.wiki_asked > 0
                &&& w.proposals == s.proposals
                &&& w.blocks == s.blocks
            }
        }),
{
    lemma_open(s.proposals, except);
}

/// The open patches are the cards that are, in order.
proof fn lemma_open(cards: Seq<(u64, RecordV)>, except: Option<u64>)
    ensures
        patches::open_patches(cards, except) == cards.filter(
            |r: (u64, RecordV)| open_wiki_card(r.1) && except != Some(r.0),
        ).map_values(|r: (u64, RecordV)| r.0),
    decreases cards.len(),
{
    reveal(Seq::filter);
    let pass = |r: (u64, RecordV)| open_wiki_card(r.1) && except != Some(r.0);
    let f = |r: (u64, RecordV)| r.0;
    if cards.len() > 0 {
        lemma_open(cards.drop_last(), except);
    }
    assert(patches::open_patches(cards, except) =~= cards.filter(pass).map_values(f));
}

/// The refusal of a foreign commitment names the tree that is held first and
/// then the one that is asked for.
pub proof fn a_foreign_tree_is_named(below: Seq<EntryV>, sum: EntryV, base: Seq<FileV>)
    requires
        forall|k: int| 0 <= k < below.len() ==> !sums_wiki(#[trigger] below[k]),
        sums_wiki(sum),
        sum.payload.text("hash"@) is Some,
        sum.payload.text("hash"@)->0 != identity::hash_text(wiki_base::tree_bytes(base)),
    ensures
        wiki_base::plan_of(below.push(sum), base) == Err::<PlanV, Seq<char>>(
            "the shared memory base this node holds ("@ + identity::hash_text(
                wiki_base::tree_bytes(base),
            ) + ") is not the committed one ("@ + sum.payload.text("hash"@)->0 + ")"@,
        ),
{
    lemma_plan_push(below, sum, base);
    every_patch_is_folded_in_order(below, base);
}

/// A summary is planned by the entries of its memory group alone, with the
/// same plan or the same refusal.
pub proof fn a_summary_is_planned_by_its_memory(state: SummaryV, base: Seq<FileV>, g: int)
    requires
        0 <= g < state.applied.len(),
        state.applied[g].surface == Surface::Memory,
        forall|j: int|
            0 <= j < g ==> (#[trigger] state.applied[j]).surface != Surface::Memory,
    ensures
        match wiki_base::plan_of(state.applied[g].entries, base) {
            Ok(plan) => wiki_base::state_plan(state, base) == Ok::<Option<PlanV>, Seq<char>>(
                Some(plan),
            ),
            Err(why) => wiki_base::state_plan(state, base) == Err::<Option<PlanV>, Seq<char>>(why),
        },
{
    lemma_memory(state.applied, g);
}

/// A summary without a memory group has nothing to plan and nothing to fold,
/// and stays as it is.
pub proof fn a_summary_without_memory_is_left_alone(
    state: SummaryV,
    plan: PlanV,
    tree: Seq<FileV>,
)
    requires
        forall|j: int|
            0 <= j < state.applied.len() ==> (#[trigger] state.applied[j]).surface
                != Surface::Memory,
    ensures
        wiki_base::state_plan(state, tree) == Ok::<Option<PlanV>, Seq<char>>(None),
        wiki_base::state_folded(state, plan, tree) == state,
        !wiki_base::foldable(state),
{
    lemma_no_memory(state.applied);
}

/// No memory group is found where there is none.
proof fn lemma_no_memory(groups: Seq<GroupV>)
    requires
        forall|j: int|
            0 <= j < groups.len() ==> (#[trigger] groups[j]).surface != Surface::Memory,
    ensures
        wiki_base::memory_place(groups) is None,
    decreases groups.len(),
{
    if groups.len() > 0 {
        assert(groups[0].surface != Surface::Memory);
        let rest = groups.skip(1);
        assert forall|j: int| 0 <= j < rest.len() implies (#[trigger] rest[j]).surface
            != Surface::Memory by {
            assert(rest[j] == groups[j + 1]);
        }
        lemma_no_memory(rest);
    }
}

} // verus!
