//! The shared memory as one commitment. A summary may fold the wiki: the patches
//! of the memory group give way to the hash of the tree they make, and the tree
//! itself travels on its own. A member that folds from the beginning and one
//! that folds onto a tree it fetched reach the same commitment, so both can
//! sign the same cut.

use crate::canonical::{put_raw, Canonical};
use crate::identity;
use crate::identity::content_hash;
use crate::model::{AppliedEntry, AppliedGroup, CheckpointState, EntryV, GroupV, SummaryV, Surface};
use crate::payload;
use crate::payload::{Field, FieldV, Payload, PayloadV};
use crate::text::same_text;
use crate::wiki_tree::{FileV, WikiFile, WikiTree};
use vstd::prelude::*;
use vstd::string::*;
use vstd::utf8::*;

verus! {

/// Whether a member proposes folded cuts. It does not: a member that walks the
/// chain holds each cut against the summary with its patches, and would refuse
/// one of the folded form. A folded summary is taken only as the anchor of a
/// served suffix, where it is held against its own hash.
pub const FOLD_CUTS: bool = false;

/// The id of the entry that stands for the folded patches. Proposals are
/// counted from one, so it names none.
pub const BASE_ENTRY_ID: u64 = 0;

impl Canonical for WikiFile {
    open spec fn bytes_of(v: FileV) -> Seq<u8> {
        String::bytes_of(v.path) + String::bytes_of(v.content)
    }

    proof fn prefix_free(a: FileV, b: FileV, x: Seq<u8>, y: Seq<u8>) {
        let ra = String::bytes_of(a.content);
        let rb = String::bytes_of(b.content);
        assert(String::bytes_of(a.path) + ra + x =~= String::bytes_of(a.path) + (ra + x));
        assert(String::bytes_of(b.path) + rb + y =~= String::bytes_of(b.path) + (rb + y));
        String::prefix_free(a.path, b.path, ra + x, rb + y);
        String::prefix_free(a.content, b.content, x, y);
    }

    fn put(&self, out: &mut Vec<u8>) {
        let ghost start = out@;
        self.path.put(out);
        self.content.put(out);
        assert(out@ =~= start + Self::bytes_of(self.deep_view()));
    }
}

/// The bytes that a tree is hashed as.
pub open spec fn tree_bytes(tree: Seq<FileV>) -> Seq<u8> {
    encode_utf8("molt-wiki-base-v1\0"@) + <Vec<WikiFile> as Canonical>::bytes_of(tree)
}

/// The commitment to a tree: its hash, and how many bytes it has.
pub open spec fn commitment_of(tree: Seq<FileV>) -> (Seq<char>, u64) {
    (identity::hash_text(tree_bytes(tree)), tree_bytes(tree).len() as u64)
}

/// The commitment to a tree: its hash, and how many bytes it has.
pub fn commitment(tree: &WikiTree) -> (r: (String, u64))
    ensures
        (r.0@, r.1) == commitment_of(tree.deep_view()),
{
    let mut out: Vec<u8> = Vec::new();
    put_raw(&mut out, "molt-wiki-base-v1\0".as_bytes());
    tree.files().put(&mut out);
    assert(out@ =~= tree_bytes(tree.deep_view()));
    (content_hash(out.as_slice()), out.len() as u64)
}

/// The commitment that an entry of the memory group carries, if it stands for
/// folded patches.
pub open spec fn committed_in(payload: PayloadV) -> Option<(Seq<char>, u64)> {
    if payload.has_op("wiki_base"@) {
        Some(
            (
                match payload.text("hash"@) {
                    Some(t) => t,
                    None => Seq::empty(),
                },
                match payload.count("size"@) {
                    Some(n) => n,
                    None => 0,
                },
            ),
        )
    } else {
        None
    }
}

/// The commitment that an entry of the memory group carries, if it stands for
/// folded patches.
pub fn base_commitment_of(payload: &Payload) -> (r: Option<(String, u64)>)
    ensures
        match r {
            Some((hash, size)) => committed_in(payload.deep_view()) == Some((hash@, size)),
            None => committed_in(payload.deep_view()) is None,
        },
{
    if !payload.has_op("wiki_base") {
        return None;
    }
    let hash: String = match payload.text("hash") {
        Some(t) => t.clone(),
        None => String::new(),
    };
    let size: u64 = match payload.count("size") {
        Some(n) => n,
        None => 0,
    };
    assert(payload.deep_view().text("hash"@) is None ==> hash@ =~= Seq::empty());
    Some((hash, size))
}

/// The content of the entry that stands for the folded patches.
pub open spec fn base_payload(hash: Seq<char>, size: u64) -> PayloadV {
    PayloadV::Object(
        seq![
            FieldV { name: "hash"@, value: PayloadV::Text(hash) },
            FieldV { name: "op"@, value: PayloadV::Text("wiki_base"@) },
            FieldV { name: "size"@, value: PayloadV::Count(size) },
        ],
    )
}

/// The entry that stands for the folded patches.
pub open spec fn base_entry_of(tree: Seq<FileV>) -> EntryV {
    EntryV {
        id: BASE_ENTRY_ID,
        payload: base_payload(commitment_of(tree).0, commitment_of(tree).1),
    }
}

/// The entry that stands for the folded patches.
fn base_entry(tree: &WikiTree) -> (r: AppliedEntry)
    ensures
        r.deep_view() == base_entry_of(tree.deep_view()),
{
    let (hash, size) = commitment(tree);
    let fields: Vec<Field> =
        vec![
        Field { name: "hash".to_owned(), value: Payload::Text(hash) },
        Field { name: "op".to_owned(), value: Payload::Text("wiki_base".to_owned()) },
        Field { name: "size".to_owned(), value: Payload::Count(size) },
    ];
    let payload = Payload::Object(fields);
    proof {
        let c = commitment_of(tree.deep_view());
        let all = payload.deep_view()->Object_0;
        assert(payload::field_model(fields@[0]) == (FieldV {
            name: "hash"@,
            value: PayloadV::Text(c.0),
        }));
        assert(payload::field_model(fields@[1]) == (FieldV {
            name: "op"@,
            value: PayloadV::Text("wiki_base"@),
        }));
        assert(payload::field_model(fields@[2]) == (FieldV {
            name: "size"@,
            value: PayloadV::Count(c.1),
        }));
        assert(all =~= base_payload(c.0, c.1)->Object_0);
    }
    AppliedEntry { id: BASE_ENTRY_ID, payload }
}

/// What a fold has to do: the patches to apply, in order, onto the held tree
/// or onto nothing, and the entries that are no wiki.
#[derive(Debug, PartialEq, Eq)]
pub struct FoldPlan {
    /// Whether the patches go onto the held tree.
    pub onto_base: bool,
    pub patches: Vec<Payload>,
    pub kept: Vec<AppliedEntry>,
}

/// The model of [`FoldPlan`].
pub struct PlanV {
    pub onto_base: bool,
    pub patches: Seq<PayloadV>,
    pub kept: Seq<EntryV>,
}

impl DeepView for FoldPlan {
    type V = PlanV;

    open spec fn deep_view(&self) -> PlanV {
        PlanV {
            onto_base: self.onto_base,
            patches: self.patches.deep_view(),
            kept: self.kept.deep_view(),
        }
    }
}

/// Why a tree is not the committed one.
pub open spec fn foreign_base(have: Seq<char>, want: Seq<char>) -> Seq<char> {
    "the shared memory base this node holds ("@ + have + ") is not the committed one ("@ + want
        + ")"@
}

/// The plan after one more entry. A commitment starts the fold over from the
/// held tree; a second one is forged, and so is one to another tree.
pub open spec fn plan_step(plan: PlanV, base: Seq<FileV>, entry: EntryV) -> Result<
    PlanV,
    Seq<char>,
> {
    match committed_in(entry.payload) {
        Some((want, _)) => if plan.onto_base {
            Err("the memory group carries two base commitments"@)
        } else if commitment_of(base).0 != want {
            Err(foreign_base(commitment_of(base).0, want))
        } else {
            Ok(PlanV { onto_base: true, patches: Seq::empty(), ..plan })
        },
        None => if entry.payload.has_op("wiki_patch"@) {
            Ok(PlanV { patches: plan.patches.push(entry.payload), ..plan })
        } else {
            Ok(PlanV { kept: plan.kept.push(entry), ..plan })
        },
    }
}

/// The plan for a memory group.
pub open spec fn plan_of(group: Seq<EntryV>, base: Seq<FileV>) -> Result<PlanV, Seq<char>>
    decreases group.len(),
{
    if group.len() == 0 {
        Ok(PlanV { onto_base: false, patches: Seq::empty(), kept: Seq::empty() })
    } else {
        match plan_of(group.drop_last(), base) {
            Ok(plan) => plan_step(plan, base, group.last()),
            Err(e) => Err(e),
        }
    }
}

/// The folded group, once the tree is known.
pub open spec fn folded_group(plan: PlanV, tree: Seq<FileV>) -> Seq<EntryV> {
    seq![base_entry_of(tree)] + plan.kept
}

/// Plans the fold of a memory group. `base` is the tree that this member holds
/// for a commitment that the group already carries.
pub fn plan_fold(group: &Vec<AppliedEntry>, base: &WikiTree) -> (r: Result<FoldPlan, String>)
    ensures
        match r {
            Ok(plan) => plan_of(group.deep_view(), base.deep_view()) == Ok::<PlanV, Seq<char>>(
                plan.deep_view(),
            ),
            Err(e) => plan_of(group.deep_view(), base.deep_view()) == Err::<PlanV, Seq<char>>(e@),
        },
{
    let ghost all = group.deep_view();
    let ghost held = base.deep_view();
    let mut plan = FoldPlan { onto_base: false, patches: Vec::new(), kept: Vec::new() };
    let mut i: usize = 0;
    proof {
        assert(all.take(0) =~= Seq::empty());
        assert(plan.patches.deep_view() =~= Seq::empty());
        assert(plan.kept.deep_view() =~= Seq::empty());
    }
    while i < group.len()
        invariant
            i <= group.len(),
            all == group.deep_view(),
            held == base.deep_view(),
            plan_of(all.take(i as int), held) == Ok::<PlanV, Seq<char>>(plan.deep_view()),
        decreases group.len() - i,
    {
        let entry = &group[i];
        let ghost before = plan.deep_view();
        proof {
            assert(all.take(i + 1).drop_last() =~= all.take(i as int));
            assert(all.take(i + 1).last() == entry.deep_view());
            if plan_step(before, held, entry.deep_view()) is Err {
                lemma_plan_stuck(all, held, i + 1);
            }
        }
        match base_commitment_of(&entry.payload) {
            Some((want, _)) => {
                if plan.onto_base {
                    return Err("the memory group carries two base commitments".to_owned());
                }
                let (have, _) = commitment(base);
                if !same_text(have.as_str(), want.as_str()) {
                    let mut why = "the shared memory base this node holds (".to_owned();
                    why.append(have.as_str());
                    why.append(") is not the committed one (");
                    why.append(want.as_str());
                    why.append(")");
                    return Err(why);
                }
                plan.onto_base = true;
                plan.patches = Vec::new();
                assert(plan.patches.deep_view() =~= Seq::empty());
            },
            None => {
                if entry.payload.has_op("wiki_patch") {
                    let patch = entry.payload.clone();
                    plan.patches.push(patch);
                    assert(plan.patches.deep_view() =~= before.patches.push(patch.deep_view()));
                } else {
                    let copy = entry.clone();
                    plan.kept.push(copy);
                    assert(plan.kept.deep_view() =~= before.kept.push(copy.deep_view()));
                }
            },
        }
        i = i + 1;
    }
    assert(all.take(i as int) =~= all);
    Ok(plan)
}

/// A group that starts with one that cannot be folded cannot be folded, for
/// the same reason.
proof fn lemma_plan_stuck(group: Seq<EntryV>, base: Seq<FileV>, n: int)
    requires
        0 <= n <= group.len(),
        plan_of(group.take(n), base) is Err,
    ensures
        plan_of(group, base) == plan_of(group.take(n), base),
    decreases group.len(),
{
    if n == group.len() {
        assert(group.take(n) =~= group);
    } else {
        assert(group.drop_last().take(n) =~= group.take(n));
        lemma_plan_stuck(group.drop_last(), base, n);
    }
}

/// Folds a memory group, once the planned patches were applied: `tree` is what
/// they make. One commitment comes first, then every entry that is no wiki.
pub fn summarize(plan: &FoldPlan, tree: &WikiTree) -> (r: Vec<AppliedEntry>)
    ensures
        r.deep_view() == folded_group(plan.deep_view(), tree.deep_view()),
{
    let ghost all = plan.kept.deep_view();
    let first = base_entry(tree);
    let mut out: Vec<AppliedEntry> = vec![first];
    let mut i: usize = 0;
    assert(out.deep_view() =~= seq![first.deep_view()] + all.take(0));
    while i < plan.kept.len()
        invariant
            i <= plan.kept.len(),
            all == plan.kept.deep_view(),
            out.deep_view() == seq![first.deep_view()] + all.take(i as int),
        decreases plan.kept.len() - i,
    {
        let ghost done = out.deep_view();
        let copy = plan.kept[i].clone();
        out.push(copy);
        proof {
            assert(copy.deep_view() == all[i as int]);
            assert(out.deep_view() =~= done.push(copy.deep_view()));
            assert(done.push(all[i as int]) =~= seq![first.deep_view()] + all.take(i + 1));
        }
        i = i + 1;
    }
    assert(all.take(i as int) =~= all);
    out
}

/// The place of the memory group.
pub open spec fn memory_place(groups: Seq<GroupV>) -> Option<nat>
    decreases groups.len(),
{
    if groups.len() == 0 {
        None
    } else if groups[0].surface == Surface::Memory {
        Some(0)
    } else {
        match memory_place(groups.skip(1)) {
            Some(n) => Some(n + 1),
            None => None,
        }
    }
}

/// The place of the memory group.
fn find_memory(groups: &Vec<AppliedGroup>) -> (r: Option<usize>)
    ensures
        match r {
            Some(i) => memory_place(groups.deep_view()) == Some(i as nat) && i < groups.len(),
            None => memory_place(groups.deep_view()) is None,
        },
{
    let ghost all = groups.deep_view();
    let mut i: usize = 0;
    assert(all.skip(0) =~= all);
    while i < groups.len()
        invariant
            i <= groups.len(),
            all == groups.deep_view(),
            match memory_place(all.skip(i as int)) {
                Some(n) => memory_place(all) == Some((n + i) as nat),
                None => memory_place(all) is None,
            },
        decreases groups.len() - i,
    {
        assert(all.skip(i as int)[0] == groups@[i as int].deep_view());
        if groups[i].surface == Surface::Memory {
            return Some(i);
        }
        assert(all.skip(i as int).skip(1) =~= all.skip(i + 1));
        i = i + 1;
    }
    assert(all.skip(i as int) =~= Seq::empty());
    None
}

/// The plan for a whole state; none where it has no memory group.
pub open spec fn state_plan(state: SummaryV, base: Seq<FileV>) -> Result<Option<PlanV>, Seq<char>> {
    match memory_place(state.applied) {
        None => Ok(None),
        Some(n) => match plan_of(state.applied[n as int].entries, base) {
            Ok(plan) => Ok(Some(plan)),
            Err(e) => Err(e),
        },
    }
}

/// Plans the fold of a state's memory group; there is nothing to plan where it
/// has none.
pub fn plan_state(state: &CheckpointState, base: &WikiTree) -> (r: Result<
    Option<FoldPlan>,
    String,
>)
    ensures
        match r {
            Ok(plan) => state_plan(state.deep_view(), base.deep_view()) == Ok::<
                Option<PlanV>,
                Seq<char>,
            >(plan.deep_view()),
            Err(e) => state_plan(state.deep_view(), base.deep_view()) == Err::<
                Option<PlanV>,
                Seq<char>,
            >(e@),
        },
{
    match find_memory(&state.applied) {
        None => Ok(None),
        Some(i) => {
            assert(state.applied.deep_view()[i as int] == state.applied@[i as int].deep_view());
            match plan_fold(&state.applied[i].entries, base) {
                Ok(plan) => Ok(Some(plan)),
                Err(e) => Err(e),
            }
        },
    }
}

/// The state with its memory group folded.
pub open spec fn state_folded(state: SummaryV, plan: PlanV, tree: Seq<FileV>) -> SummaryV {
    match memory_place(state.applied) {
        None => state,
        Some(n) => SummaryV {
            applied: state.applied.update(
                n as int,
                GroupV {
                    entries: folded_group(plan, tree),
                    ..state.applied[n as int]
                },
            ),
            ..state
        },
    }
}

/// Folds a state's memory group. One without it is left alone: it has nothing
/// to fold, and keeps hashing as it did.
pub fn summarize_state(state: &mut CheckpointState, plan: &FoldPlan, tree: &WikiTree)
    ensures
        final(state).deep_view() == state_folded(
            old(state).deep_view(),
            plan.deep_view(),
            tree.deep_view(),
        ),
{
    match find_memory(&state.applied) {
        None => {},
        Some(i) => {
            let ghost all = state.applied.deep_view();
            assert(all[i as int] == state.applied@[i as int].deep_view());
            let entries = summarize(plan, tree);
            let group = AppliedGroup { surface: state.applied[i].surface, entries };
            state.applied[i] = group;
            assert(state.applied.deep_view() =~= all.update(i as int, group.deep_view()));
        },
    }
}

/// Is the entry wiki content?
pub open spec fn is_wiki(entry: EntryV) -> bool {
    entry.payload.has_op("wiki_patch"@) || entry.payload.has_op("wiki_base"@)
}

/// Does the state hold wiki content? Only then is a folded cut proposed.
pub open spec fn foldable(state: SummaryV) -> bool {
    match memory_place(state.applied) {
        None => false,
        Some(n) => exists|k: int|
            0 <= k < state.applied[n as int].entries.len() && is_wiki(
                #[trigger] state.applied[n as int].entries[k],
            ),
    }
}

/// Does the state hold wiki content?
pub fn worth_folding(state: &CheckpointState) -> (r: bool)
    ensures
        r == foldable(state.deep_view()),
{
    match find_memory(&state.applied) {
        None => false,
        Some(n) => {
            assert(state.applied.deep_view()[n as int] == state.applied@[n as int].deep_view());
            let entries = &state.applied[n].entries;
            let ghost all = entries.deep_view();
            let mut i: usize = 0;
            while i < entries.len()
                invariant
                    i <= entries.len(),
                    all == entries.deep_view(),
                    memory_place(state.deep_view().applied) == Some(n as nat),
                    all == state.deep_view().applied[n as int].entries,
                    forall|k: int| 0 <= k < i ==> !is_wiki(#[trigger] all[k]),
                decreases entries.len() - i,
            {
                assert(all[i as int] == entries@[i as int].deep_view());
                if entries[i].payload.has_op("wiki_patch") || entries[i].payload.has_op(
                    "wiki_base",
                ) {
                    assert(is_wiki(all[i as int]));
                    return true;
                }
                i = i + 1;
            }
            false
        },
    }
}

/// The tree that the patches make, one after the other, by `apply`.
pub open spec fn patched(
    apply: spec_fn(Seq<FileV>, PayloadV) -> Seq<FileV>,
    tree: Seq<FileV>,
    patches: Seq<PayloadV>,
) -> Seq<FileV>
    decreases patches.len(),
{
    if patches.len() == 0 {
        tree
    } else {
        apply(patched(apply, tree, patches.drop_last()), patches.last())
    }
}

/// The tree that a plan makes.
pub open spec fn planned_tree(
    apply: spec_fn(Seq<FileV>, PayloadV) -> Seq<FileV>,
    plan: PlanV,
    base: Seq<FileV>,
) -> Seq<FileV> {
    patched(
        apply,
        if plan.onto_base {
            base
        } else {
            Seq::empty()
        },
        plan.patches,
    )
}

/// Carries the group no commitment?
pub open spec fn unfolded(group: Seq<EntryV>) -> bool {
    forall|k: int| 0 <= k < group.len() ==> committed_in((#[trigger] group[k]).payload) is None
}

/// What an entry that stands for folded patches commits to reads back.
pub proof fn a_commitment_reads_back(tree: Seq<FileV>)
    ensures
        committed_in(base_entry_of(tree).payload) == Some(commitment_of(tree)),
{
    let c = commitment_of(tree);
    let fields = base_payload(c.0, c.1)->Object_0;
    reveal_strlit("hash");
    reveal_strlit("op");
    reveal_strlit("size");
    assert("hash"@.len() == 4 && "op"@.len() == 2 && "size"@.len() == 4);
    assert("hash"@[0] == 'h' && "size"@[0] == 's');
    assert(payload::field_of(fields, "hash"@) == Some(PayloadV::Text(c.0)));
    assert(fields.skip(1)[0] == fields[1]);
    assert(payload::field_of(fields.skip(1), "op"@) == Some(PayloadV::Text("wiki_base"@)));
    assert(payload::field_of(fields, "op"@) == Some(PayloadV::Text("wiki_base"@)));
    assert(fields.skip(1).skip(1)[0] == fields[2]);
    assert(payload::field_of(fields.skip(1).skip(1), "size"@) == Some(PayloadV::Count(c.1)));
    assert(payload::field_of(fields.skip(1), "size"@) == Some(PayloadV::Count(c.1)));
    assert(payload::field_of(fields, "size"@) == Some(PayloadV::Count(c.1)));
}

/// A group without a commitment is folded from nothing.
proof fn lemma_unfolded(group: Seq<EntryV>, base: Seq<FileV>, other: Seq<FileV>)
    requires
        unfolded(group),
    ensures
        plan_of(group, base) is Ok,
        !plan_of(group, base)->Ok_0.onto_base,
        plan_of(group, base) == plan_of(group, other),
    decreases group.len(),
{
    if group.len() > 0 {
        let front = group.drop_last();
        assert forall|k: int| 0 <= k < front.len() implies committed_in(
            (#[trigger] front[k]).payload,
        ) is None by {
            assert(group[k] == front[k]);
        }
        lemma_unfolded(front, base, other);
        assert(committed_in(group[group.len() - 1].payload) is None);
    }
}

/// Planning further entries adds what they plan.
proof fn lemma_plan_more(front: Seq<EntryV>, more: Seq<EntryV>, base: Seq<FileV>)
    requires
        plan_of(front, base) is Ok,
        unfolded(more),
    ensures
        plan_of(more, base) is Ok,
        plan_of(front + more, base) == Ok::<PlanV, Seq<char>>(
            PlanV {
                onto_base: plan_of(front, base)->Ok_0.onto_base,
                patches: plan_of(front, base)->Ok_0.patches + plan_of(more, base)->Ok_0.patches,
                kept: plan_of(front, base)->Ok_0.kept + plan_of(more, base)->Ok_0.kept,
            },
        ),
    decreases more.len(),
{
    let a = plan_of(front, base)->Ok_0;
    lemma_unfolded(more, base, base);
    let b = plan_of(more, base)->Ok_0;
    if more.len() == 0 {
        assert(front + more =~= front);
        assert(a.patches + b.patches =~= a.patches);
        assert(a.kept + b.kept =~= a.kept);
    } else {
        let rest = more.drop_last();
        assert forall|k: int| 0 <= k < rest.len() implies committed_in(
            (#[trigger] rest[k]).payload,
        ) is None by {
            assert(more[k] == rest[k]);
        }
        lemma_plan_more(front, rest, base);
        let c = plan_of(rest, base)->Ok_0;
        assert((front + more).drop_last() =~= front + rest);
        assert((front + more).last() == more.last());
        assert(committed_in(more[more.len() - 1].payload) is None);
        assert((a.patches + c.patches).push(more.last().payload) =~= a.patches + c.patches.push(
            more.last().payload,
        ));
        assert((a.kept + c.kept).push(more.last()) =~= a.kept + c.kept.push(more.last()));
    }
}

/// The kept entries carry no commitment and no patch, and are kept again.
proof fn lemma_kept_again(group: Seq<EntryV>, base: Seq<FileV>)
    requires
        plan_of(group, base) is Ok,
    ensures
        unfolded(plan_of(group, base)->Ok_0.kept),
        plan_of(plan_of(group, base)->Ok_0.kept, base) == Ok::<PlanV, Seq<char>>(
            PlanV {
                onto_base: false,
                patches: Seq::empty(),
                kept: plan_of(group, base)->Ok_0.kept,
            },
        ),
    decreases group.len(),
{
    let kept = plan_of(group, base)->Ok_0.kept;
    if group.len() == 0 {
        assert(kept =~= Seq::empty());
    } else {
        lemma_kept_again(group.drop_last(), base);
        let before = plan_of(group.drop_last(), base)->Ok_0.kept;
        let entry = group.last();
        if committed_in(entry.payload) is None && !entry.payload.has_op("wiki_patch"@) {
            assert(kept == before.push(entry));
            assert(kept.drop_last() =~= before);
        }
    }
}

/// Patches may be applied in two goes.
proof fn lemma_patched(
    apply: spec_fn(Seq<FileV>, PayloadV) -> Seq<FileV>,
    tree: Seq<FileV>,
    a: Seq<PayloadV>,
    b: Seq<PayloadV>,
)
    ensures
        patched(apply, tree, a + b) == patched(apply, patched(apply, tree, a), b),
    decreases b.len(),
{
    if b.len() == 0 {
        assert(a + b =~= a);
    } else {
        lemma_patched(apply, tree, a, b.drop_last());
        assert((a + b).drop_last() =~= a + b.drop_last());
        assert((a + b).last() == b.last());
    }
}

/// Folding from the beginning and folding onto the tree of an earlier fold
/// agree, whatever applying a patch does: the same tree, the same group, so
/// the same commitment.
pub proof fn folding_in_two_cuts_is_folding_in_one(
    apply: spec_fn(Seq<FileV>, PayloadV) -> Seq<FileV>,
    first: Seq<EntryV>,
    second: Seq<EntryV>,
)
    requires
        unfolded(first),
        unfolded(second),
    ensures
        ({
            let none = Seq::<FileV>::empty();
            let plan = plan_of(first, none)->Ok_0;
            let base = planned_tree(apply, plan, none);
            let cut = folded_group(plan, base);
            let all = plan_of(first + second, none);
            let onto = plan_of(cut + second, base);
            &&& all is Ok
            &&& onto is Ok
            &&& planned_tree(apply, onto->Ok_0, base) == planned_tree(apply, all->Ok_0, none)
            &&& folded_group(onto->Ok_0, planned_tree(apply, onto->Ok_0, base)) == folded_group(
                all->Ok_0,
                planned_tree(apply, all->Ok_0, none),
            )
        }),
{
    let none = Seq::<FileV>::empty();
    lemma_unfolded(first, none, none);
    let plan = plan_of(first, none)->Ok_0;
    let base = planned_tree(apply, plan, none);
    let cut = folded_group(plan, base);
    lemma_plan_more(first, second, none);
    let all = plan_of(first + second, none)->Ok_0;
    let head = seq![base_entry_of(base)];
    a_commitment_reads_back(base);
    assert(head.drop_last() =~= Seq::empty());
    assert(head.last() == base_entry_of(base));
    lemma_kept_again(first, none);
    lemma_unfolded(plan.kept, none, base);
    let nothing = PlanV { onto_base: false, patches: Seq::empty(), kept: Seq::empty() };
    assert(plan_of(head.drop_last(), base) == Ok::<PlanV, Seq<char>>(nothing));
    assert(plan_step(nothing, base, head.last()) is Ok);
    assert(plan_of(head, base) == plan_step(nothing, base, head.last()));
    lemma_plan_more(head, plan.kept, base);
    let cut_plan = plan_of(cut, base)->Ok_0;
    assert(cut_plan.kept =~= plan.kept);
    assert(cut_plan.patches =~= Seq::empty());
    lemma_plan_more(cut, second, base);
    let onto = plan_of(cut + second, base)->Ok_0;
    lemma_unfolded(second, none, base);
    let tail = plan_of(second, none)->Ok_0;
    assert(onto.patches =~= tail.patches);
    assert(all.patches == plan.patches + tail.patches);
    lemma_patched(apply, none, plan.patches, tail.patches);
}

} // verus!
