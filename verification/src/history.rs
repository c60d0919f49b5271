//! What a verified chain says without a holder: where to address a seat, which
//! relays it reaches, the governed relay pool, and the rows of the history.

use crate::fold;
use crate::fold::{set_anchor, set_declaration};
use crate::model;
use crate::model::{
    Anchor, AnchorV, AppliedEntry, AppliedGroup, AttestationV, BlockV, ChainBlock, ChainBlockView,
    ChainChange, ChangeV, CheckpointState, DeclarationV, EntryV, GroupV, MembershipOp,
    RelayDeclaration, RosterAttestation, RowV, SummaryV, Surface,
};
use crate::payload::{Payload, PayloadV};
use crate::text;
use crate::text::{has_name, split_words};
use vstd::prelude::*;
use vstd::string::*;

verus! {

/// The transport anchors after one block: a membership change with a
/// transport key re-anchors its seat.
pub open spec fn anchors_with(anchors: Seq<AnchorV>, change: ChangeV) -> Seq<AnchorV> {
    match change {
        ChangeV::Membership { member, nostr_pk: Some(pk), .. } => if pk.len() > 0 {
            fold::anchors_after(anchors, member, pk)
        } else {
            anchors
        },
        _ => anchors,
    }
}

/// The transport anchors after the blocks, in block order: the last re-anchor
/// of a seat wins.
pub open spec fn anchors_through(base: Seq<AnchorV>, blocks: Seq<BlockV>) -> Seq<AnchorV>
    decreases blocks.len(),
{
    if blocks.len() == 0 {
        base
    } else {
        anchors_with(anchors_through(base, blocks.drop_last()), blocks.last().change)
    }
}

/// Re-anchors the seat that a change names, if it names one.
pub fn anchor_change(anchors: &mut Vec<Anchor>, change: &ChainChange)
    ensures
        final(anchors).deep_view() == anchors_with(old(anchors).deep_view(), change.deep_view()),
{
    match change {
        ChainChange::Membership { op: _, member, identity_pk: _, nostr_pk: Some(pk), .. } => {
            if !pk.as_str().is_empty() {
                set_anchor(anchors, member, pk);
            }
        },
        _ => {},
    }
}

/// The transport anchors after the blocks.
pub fn fold_anchors(base: Vec<Anchor>, blocks: &Vec<ChainBlock>) -> (r: Vec<Anchor>)
    ensures
        r.deep_view() == anchors_through(base.deep_view(), blocks.deep_view()),
{
    let ghost all = blocks.deep_view();
    let ghost start = base.deep_view();
    let mut anchors = base;
    let mut i: usize = 0;
    assert(all.take(0) =~= Seq::empty());
    while i < blocks.len()
        invariant
            i <= blocks.len(),
            all == blocks.deep_view(),
            start == base.deep_view(),
            anchors.deep_view() == anchors_through(start, all.take(i as int)),
        decreases blocks.len() - i,
    {
        assert(all.take(i + 1).drop_last() =~= all.take(i as int));
        assert(all.take(i + 1).last() == blocks@[i as int].deep_view());
        anchor_change(&mut anchors, &blocks[i].change);
        i = i + 1;
    }
    assert(all.take(i as int) =~= all);
    anchors
}

/// The working transport anchor of each seat that a block re-anchored.
pub fn working_anchors(blocks: &Vec<ChainBlock>) -> (r: Vec<Anchor>)
    ensures
        r.deep_view() == anchors_through(Seq::empty(), blocks.deep_view()),
{
    let base: Vec<Anchor> = Vec::new();
    assert(base.deep_view() =~= Seq::empty());
    fold_anchors(base, blocks)
}

/// The transport anchor on record for a member.: where a list names a member
/// twice, the last entry counts.
pub open spec fn anchor_of(anchors: Seq<AnchorV>, member: Seq<char>) -> Option<Seq<char>>
    decreases anchors.len(),
{
    if anchors.len() == 0 {
        None
    } else if anchors.last().member == member {
        Some(anchors.last().nostr_pk)
    } else {
        anchor_of(anchors.drop_last(), member)
    }
}

/// The transport anchor on record for a member.
pub fn find_anchor(anchors: &Vec<Anchor>, member: &str) -> (r: Option<String>)
    ensures
        r.deep_view() == anchor_of(anchors.deep_view(), member@),
{
    let ghost all = anchors.deep_view();
    let mut i: usize = anchors.len();
    assert(all.take(i as int) =~= all);
    while i > 0
        invariant
            i <= anchors.len(),
            all == anchors.deep_view(),
            anchor_of(all, member@) == anchor_of(all.take(i as int), member@),
        decreases i,
    {
        assert(all.take(i as int).last() == anchors@[i - 1].deep_view());
        assert(all.take(i as int).drop_last() =~= all.take(i - 1));
        if text::same_text(anchors[i - 1].member.as_str(), member) {
            return Some(anchors[i - 1].nostr_pk.clone());
        }
        i = i - 1;
    }
    None
}

/// The relay declarations after one block.
pub open spec fn declarations_with(declared: Seq<DeclarationV>, change: ChangeV) -> Seq<DeclarationV> {
    match change {
        ChangeV::Membership { member, relays, .. } => if relays.len() > 0 {
            fold::declarations_after(declared, member, relays)
        } else {
            declared
        },
        _ => declared,
    }
}

/// The relay declarations after the blocks: the last of a seat wins.
pub open spec fn declarations_through(base: Seq<DeclarationV>, blocks: Seq<BlockV>) -> Seq<
    DeclarationV,
>
    decreases blocks.len(),
{
    if blocks.len() == 0 {
        base
    } else {
        declarations_with(declarations_through(base, blocks.drop_last()), blocks.last().change)
    }
}

/// Records the declaration that a change carries, if it carries one.
pub fn declare_change(declared: &mut Vec<RelayDeclaration>, change: &ChainChange)
    ensures
        final(declared).deep_view() == declarations_with(
            old(declared).deep_view(),
            change.deep_view(),
        ),
{
    match change {
        ChainChange::Membership { op: _, member, identity_pk: _, nostr_pk: _, relays, consent: _ } => {
            if relays.len() > 0 {
                set_declaration(declared, member, relays);
            }
        },
        _ => {},
    }
}

/// The relay declarations after the blocks.
pub fn fold_declarations(base: Vec<RelayDeclaration>, blocks: &Vec<ChainBlock>) -> (r: Vec<
    RelayDeclaration,
>)
    ensures
        r.deep_view() == declarations_through(base.deep_view(), blocks.deep_view()),
{
    let ghost all = blocks.deep_view();
    let ghost start = base.deep_view();
    let mut declared = base;
    let mut i: usize = 0;
    assert(all.take(0) =~= Seq::empty());
    while i < blocks.len()
        invariant
            i <= blocks.len(),
            all == blocks.deep_view(),
            start == base.deep_view(),
            declared.deep_view() == declarations_through(start, all.take(i as int)),
        decreases blocks.len() - i,
    {
        assert(all.take(i + 1).drop_last() =~= all.take(i as int));
        assert(all.take(i + 1).last() == blocks@[i as int].deep_view());
        declare_change(&mut declared, &blocks[i].change);
        i = i + 1;
    }
    assert(all.take(i as int) =~= all);
    declared
}

/// The relays that each seat declared.
pub fn declared_relays(blocks: &Vec<ChainBlock>) -> (r: Vec<RelayDeclaration>)
    ensures
        r.deep_view() == declarations_through(Seq::empty(), blocks.deep_view()),
{
    let base: Vec<RelayDeclaration> = Vec::new();
    assert(base.deep_view() =~= Seq::empty());
    fold_declarations(base, blocks)
}

/// The relays on record for a member.: where a list names a member
/// twice, the last entry counts.
pub open spec fn declaration_of(declared: Seq<DeclarationV>, member: Seq<char>) -> Option<Seq<Seq<char>>>
    decreases declared.len(),
{
    if declared.len() == 0 {
        None
    } else if declared.last().member == member {
        Some(declared.last().relays)
    } else {
        declaration_of(declared.drop_last(), member)
    }
}

/// The relays on record for a member.
pub fn find_declaration(declared: &Vec<RelayDeclaration>, member: &str) -> (r: Option<Vec<String>>)
    ensures
        r.deep_view() == declaration_of(declared.deep_view(), member@),
{
    let ghost all = declared.deep_view();
    let mut i: usize = declared.len();
    assert(all.take(i as int) =~= all);
    while i > 0
        invariant
            i <= declared.len(),
            all == declared.deep_view(),
            declaration_of(all, member@) == declaration_of(all.take(i as int), member@),
        decreases i,
    {
        assert(all.take(i as int).last() == declared@[i - 1].deep_view());
        assert(all.take(i as int).drop_last() =~= all.take(i - 1));
        if text::same_text(declared[i - 1].member.as_str(), member) {
            return Some(declared[i - 1].relays.clone());
        }
        i = i - 1;
    }
    None
}

/// Do the two lists share an entry?
pub open spec fn share_one(a: Seq<Seq<char>>, b: Seq<Seq<char>>) -> bool {
    exists|i: int| 0 <= i < a.len() && b.contains(#[trigger] a[i])
}

/// Do the two lists share an entry?
pub fn shares_one(a: &Vec<String>, b: &Vec<String>) -> (r: bool)
    ensures
        r == share_one(a.deep_view(), b.deep_view()),
{
    let mut i: usize = 0;
    while i < a.len()
        invariant
            i <= a.len(),
            forall|k: int| 0 <= k < i ==> !b.deep_view().contains(#[trigger] a.deep_view()[k]),
        decreases a.len() - i,
    {
        assert(a.deep_view()[i as int] == a@[i as int]@);
        if has_name(b, a[i].as_str()) {
            return true;
        }
        i = i + 1;
    }
    false
}

/// The pool after an edit: the edit replaces the pool if it names a relay and
/// shares one with the pool so far. An edit that would share none tears the
/// republic apart, so it changes nothing.
pub open spec fn pool_after(pool: Seq<Seq<char>>, value: Seq<char>) -> Seq<Seq<char>> {
    let edit = text::words_of(value);
    if edit.len() == 0 || (pool.len() > 0 && !share_one(pool, edit)) {
        pool
    } else {
        edit
    }
}

/// Folds one pool edit.
pub fn fold_pool_edit(pool: &mut Vec<String>, value: &str)
    ensures
        final(pool).deep_view() == pool_after(old(pool).deep_view(), value@),
{
    let edit = split_words(value);
    if edit.len() == 0 {
        return;
    }
    if pool.len() > 0 && !shares_one(pool, &edit) {
        return;
    }
    *pool = edit;
}

/// Make before break: a pool that moves keeps a relay that its members still
/// listen on, so no edit separates the members who saw it from those who have
/// not.
pub proof fn a_pool_edit_makes_before_it_breaks(pool: Seq<Seq<char>>, value: Seq<char>)
    requires
        pool.len() > 0,
    ensures
        pool_after(pool, value).len() > 0,
        pool_after(pool, value) == pool || share_one(pool, pool_after(pool, value)),
{
}

/// The pool after every pool edit among the entries, in order.
pub open spec fn pool_over(pool: Seq<Seq<char>>, entries: Seq<EntryV>) -> Seq<Seq<char>>
    decreases entries.len(),
{
    if entries.len() == 0 {
        pool
    } else {
        let rest = pool_over(pool, entries.drop_last());
        let payload = entries.last().payload;
        if payload.has_op("set_relays"@) {
            pool_after(rest, payload.value_text())
        } else {
            rest
        }
    }
}

/// Folds every pool edit among the entries.
pub fn fold_pool_entries(pool: &mut Vec<String>, entries: &Vec<AppliedEntry>)
    ensures
        final(pool).deep_view() == pool_over(old(pool).deep_view(), entries.deep_view()),
{
    let ghost all = entries.deep_view();
    let ghost base = pool.deep_view();
    let mut i: usize = 0;
    assert(all.take(0) =~= Seq::empty());
    while i < entries.len()
        invariant
            i <= entries.len(),
            all == entries.deep_view(),
            base == old(pool).deep_view(),
            pool.deep_view() == pool_over(base, all.take(i as int)),
        decreases entries.len() - i,
    {
        proof {
            assert(all.take(i + 1).drop_last() =~= all.take(i as int));
            assert(all.take(i + 1).last() == entries@[i as int].deep_view());
        }
        if entries[i].payload.has_op("set_relays") {
            let value = entries[i].payload.value_text();
            fold_pool_edit(pool, value.as_str());
        }
        i = i + 1;
    }
    assert(all.take(i as int) =~= all);
}

/// The pool after every pool edit that a summary's groups keep.
pub open spec fn pool_in(pool: Seq<Seq<char>>, groups: Seq<GroupV>) -> Seq<Seq<char>>
    decreases groups.len(),
{
    if groups.len() == 0 {
        pool
    } else {
        let rest = pool_in(pool, groups.drop_last());
        if groups.last().surface == Surface::Organization {
            pool_over(rest, groups.last().entries)
        } else {
            rest
        }
    }
}

/// The pool after a change: an applied pool edit of the organization folds,
/// anything else leaves the pool.
pub open spec fn pool_with(pool: Seq<Seq<char>>, change: ChangeV) -> Seq<Seq<char>> {
    match change {
        ChangeV::Applied { surface, payload, .. } => if surface == Surface::Organization
            && payload.has_op("set_relays"@) {
            pool_after(pool, payload.value_text())
        } else {
            pool
        },
        _ => pool,
    }
}

/// The pool after the blocks.
pub open spec fn pool_through(base: Seq<Seq<char>>, blocks: Seq<BlockV>) -> Seq<Seq<char>>
    decreases blocks.len(),
{
    if blocks.len() == 0 {
        base
    } else {
        pool_with(pool_through(base, blocks.drop_last()), blocks.last().change)
    }
}

/// The pool that served material was founded on: the summary's, else the
/// founding's.
pub open spec fn founded_pool(checkpoint: Option<SummaryV>, blocks: Seq<BlockV>) -> Seq<Seq<char>> {
    match checkpoint {
        Some(blob) => blob.relays,
        None => if blocks.len() > 0 {
            match blocks[0].change {
                ChangeV::Genesis { relays, .. } => relays,
                _ => Seq::empty(),
            }
        } else {
            Seq::empty()
        },
    }
}

/// The pool that served material was founded on.
pub fn ratified_pool(checkpoint: Option<&CheckpointState>, blocks: &Vec<ChainBlock>) -> (r: Vec<
    String,
>)
    ensures
        r.deep_view() == founded_pool(checkpoint.deep_view(), blocks.deep_view()),
{
    let none: Vec<String> = Vec::new();
    assert(none.deep_view() =~= Seq::empty());
    match checkpoint {
        Some(blob) => blob.relays.clone(),
        None => {
            if blocks.len() > 0 {
                assert(blocks.deep_view()[0] == blocks@[0].deep_view());
                match &blocks[0].change {
                    ChainChange::Genesis { relays, .. } => relays.clone(),
                    _ => none,
                }
            } else {
                none
            }
        },
    }
}

/// The governed relay pool as served material folds it: the edits that the
/// summary keeps, then those of the blocks.
pub open spec fn served_pool(checkpoint: Option<SummaryV>, blocks: Seq<BlockV>) -> Seq<Seq<char>> {
    let founded = founded_pool(checkpoint, blocks);
    pool_through(
        match checkpoint {
            Some(blob) => pool_in(founded, blob.applied),
            None => founded,
        },
        blocks,
    )
}

/// Folds every pool edit that a summary's groups keep.
fn fold_pool_groups(pool: &mut Vec<String>, groups: &Vec<AppliedGroup>)
    ensures
        final(pool).deep_view() == pool_in(old(pool).deep_view(), groups.deep_view()),
{
    let ghost all = groups.deep_view();
    let ghost base = pool.deep_view();
    let mut i: usize = 0;
    assert(all.take(0) =~= Seq::empty());
    while i < groups.len()
        invariant
            i <= groups.len(),
            all == groups.deep_view(),
            base == old(pool).deep_view(),
            pool.deep_view() == pool_in(base, all.take(i as int)),
        decreases groups.len() - i,
    {
        proof {
            assert(all.take(i + 1).drop_last() =~= all.take(i as int));
            assert(all.take(i + 1).last() == groups@[i as int].deep_view());
        }
        if groups[i].surface == Surface::Organization {
            fold_pool_entries(pool, &groups[i].entries);
        }
        i = i + 1;
    }
    assert(all.take(i as int) =~= all);
}

/// The governed relay pool as served material folds it: the pool that every
/// holder of it computes.
pub fn effective_relays_of_served(checkpoint: Option<&CheckpointState>, blocks: &Vec<ChainBlock>) -> (r:
    Vec<String>)
    ensures
        r.deep_view() == served_pool(checkpoint.deep_view(), blocks.deep_view()),
{
    let ghost all = blocks.deep_view();
    let mut pool = ratified_pool(checkpoint, blocks);
    match checkpoint {
        Some(blob) => {
            fold_pool_groups(&mut pool, &blob.applied);
        },
        None => {},
    }
    let ghost base = pool.deep_view();
    let mut i: usize = 0;
    assert(all.take(0) =~= Seq::empty());
    while i < blocks.len()
        invariant
            i <= blocks.len(),
            all == blocks.deep_view(),
            pool.deep_view() == pool_through(base, all.take(i as int)),
        decreases blocks.len() - i,
    {
        assert(all.take(i + 1).drop_last() =~= all.take(i as int));
        assert(all.take(i + 1).last() == blocks@[i as int].deep_view());
        match &blocks[i].change {
            ChainChange::Applied { proposal_id: _, surface, payload } => {
                if *surface == Surface::Organization && payload.has_op("set_relays") {
                    let value = payload.value_text();
                    fold_pool_edit(&mut pool, value.as_str());
                }
            },
            _ => {},
        }
        i = i + 1;
    }
    assert(all.take(i as int) =~= all);
    pool
}

/// The names of the attestations, in order.
pub open spec fn names_of(sigs: Seq<AttestationV>) -> Seq<Seq<char>> {
    Seq::new(sigs.len(), |i: int| sigs[i].member)
}

/// The names of the attestations, in order.
pub fn signer_names(sigs: &Vec<RosterAttestation>) -> (r: Vec<String>)
    ensures
        r.deep_view() == names_of(sigs.deep_view()),
{
    let mut out: Vec<String> = Vec::new();
    let mut i: usize = 0;
    while i < sigs.len()
        invariant
            i <= sigs.len(),
            out.deep_view() == names_of(sigs.deep_view()).take(i as int),
        decreases sigs.len() - i,
    {
        let ghost done = out.deep_view();
        out.push(sigs[i].member.clone());
        assert(out.deep_view() =~= done.push(names_of(sigs.deep_view())[i as int]));
        i = i + 1;
        assert(out.deep_view() =~= names_of(sigs.deep_view()).take(i as int));
    }
    assert(out.deep_view() =~= names_of(sigs.deep_view()));
    out
}

/// What a membership change is called.
pub open spec fn op_verb(op: MembershipOp) -> Seq<char> {
    match op {
        MembershipOp::Joined => "joined"@,
        MembershipOp::Restored => "restored"@,
    }
}

/// One block as a row of the history.
pub open spec fn row_of(block: BlockV) -> RowV {
    let signers = names_of(block.sigs);
    match block.change {
        ChangeV::Genesis { name, .. } => RowV {
            height: block.height,
            kind: "genesis"@,
            surface: Seq::empty(),
            payload: PayloadV::Text(name),
            proposal_id: 0,
            signers,
        },
        ChangeV::Applied { proposal_id, surface, payload } => RowV {
            height: block.height,
            kind: "applied"@,
            surface: model::surface_name(surface),
            payload,
            proposal_id,
            signers,
        },
        ChangeV::Membership { op, member, .. } => RowV {
            height: block.height,
            kind: "membership"@,
            surface: Seq::empty(),
            payload: PayloadV::Text(op_verb(op) + " "@ + member),
            proposal_id: 0,
            signers,
        },
        ChangeV::Checkpoint { upto, .. } => RowV {
            height: block.height,
            kind: "checkpoint"@,
            surface: Seq::empty(),
            payload: PayloadV::Count(upto),
            proposal_id: 0,
            signers,
        },
    }
}

/// One block as a row of the history.
pub fn chain_block_view(block: &ChainBlock) -> (r: ChainBlockView)
    ensures
        r.deep_view() == row_of(block.deep_view()),
{
    let signers = signer_names(&block.sigs);
    match &block.change {
        ChainChange::Genesis { name, .. } => ChainBlockView {
            height: block.height,
            kind: "genesis".to_owned(),
            surface: String::new(),
            payload: Payload::Text(name.clone()),
            proposal_id: 0,
            signers,
        },
        ChainChange::Applied { proposal_id, surface, payload } => ChainBlockView {
            height: block.height,
            kind: "applied".to_owned(),
            surface: surface.as_str().to_owned(),
            payload: payload.clone(),
            proposal_id: *proposal_id,
            signers,
        },
        ChainChange::Membership { op, member, .. } => {
            let mut line: String = match op {
                MembershipOp::Joined => "joined".to_owned(),
                MembershipOp::Restored => "restored".to_owned(),
            };
            line.append(" ");
            line.append(member.as_str());
            ChainBlockView {
                height: block.height,
                kind: "membership".to_owned(),
                surface: String::new(),
                payload: Payload::Text(line),
                proposal_id: 0,
                signers,
            }
        },
        ChainChange::Checkpoint { upto, .. } => ChainBlockView {
            height: block.height,
            kind: "checkpoint".to_owned(),
            surface: String::new(),
            payload: Payload::Count(*upto),
            proposal_id: 0,
            signers,
        },
    }
}

} // verus!
