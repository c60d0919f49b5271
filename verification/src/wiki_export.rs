//! The detached check of an exported wiki: an outsider's proof that every
//! patch reached the threshold, with no trust in the exporter. It does not
//! prove completeness: trailing patches may be left out.

use crate::fault::FaultV;
use crate::model::{BlockV, ChainBlock, ChainChange, ChangeV, Surface};
use crate::payload::{Payload, PayloadV};
use crate::signers;
use crate::signers::{apply_membership, block_signers, seat_names, verify_genesis, ChainHead, HeadV};
use crate::text;
use crate::text::{append_number, same_text};
use crate::wiki_tree;
use crate::wiki_tree::{FileV, WikiTree};
use std::collections::BTreeSet;
use vstd::prelude::*;
use vstd::string::*;

verus! {

/// The format tag of the bundles this build writes and reads.
pub const WIKI_EXPORT_FORMAT: &'static str = "molt-wiki-export-v1";

/// The proof that ships with an exported wiki: the founding, every membership
/// block and every applied wiki patch, in chain order.
#[derive(Debug, PartialEq, Eq)]
pub struct WikiExportBundle {
    /// The format tag.
    pub format: String,
    pub genesis: ChainBlock,
    pub blocks: Vec<ChainBlock>,
}

/// The model of [`WikiExportBundle`].
pub struct BundleV {
    pub format: Seq<char>,
    pub genesis: BlockV,
    pub blocks: Seq<BlockV>,
}

impl DeepView for WikiExportBundle {
    type V = BundleV;

    open spec fn deep_view(&self) -> BundleV {
        BundleV {
            format: self.format@,
            genesis: self.genesis.deep_view(),
            blocks: self.blocks.deep_view(),
        }
    }
}

impl Clone for WikiExportBundle {
    fn clone(&self) -> (r: Self)
        ensures
            r.deep_view() == self.deep_view(),
    {
        WikiExportBundle {
            format: self.format.clone(),
            genesis: self.genesis.clone(),
            blocks: self.blocks.clone(),
        }
    }
}

/// What a verified wiki export proved: the facts that a reader takes off the
/// bundle, none of them on trust from the exporter.
#[derive(Debug, PartialEq, Eq)]
pub struct WikiExportReport {
    /// The content-derived republic id.
    pub republic_id: String,
    /// The republic's founding display name.
    pub name: String,
    /// Approval threshold m that every exported patch had to reach.
    pub rule_m: u8,
    /// Founding member count n.
    pub rule_n: u8,
    /// The roster after the exported membership blocks, in chain order.
    pub members: Vec<String>,
    /// Membership blocks walked.
    pub membership_blocks: usize,
    /// Wiki patches verified.
    pub patches: usize,
    /// Files in the verified tree.
    pub files: usize,
}

/// The model of [`WikiExportReport`].
pub struct ReportV {
    pub republic_id: Seq<char>,
    pub name: Seq<char>,
    pub rule_m: u8,
    pub rule_n: u8,
    pub members: Seq<Seq<char>>,
    pub membership_blocks: usize,
    pub patches: usize,
    pub files: usize,
}

impl DeepView for WikiExportReport {
    type V = ReportV;

    open spec fn deep_view(&self) -> ReportV {
        ReportV {
            republic_id: self.republic_id@,
            name: self.name@,
            rule_m: self.rule_m,
            rule_n: self.rule_n,
            members: self.members.deep_view(),
            membership_blocks: self.membership_blocks,
            patches: self.patches,
            files: self.files,
        }
    }
}

impl Clone for WikiExportReport {
    fn clone(&self) -> (r: Self)
        ensures
            r.deep_view() == self.deep_view(),
    {
        WikiExportReport {
            republic_id: self.republic_id.clone(),
            name: self.name.clone(),
            rule_m: self.rule_m,
            rule_n: self.rule_n,
            members: self.members.clone(),
            membership_blocks: self.membership_blocks,
            patches: self.patches,
            files: self.files,
        }
    }
}

/// Is this an applied wiki patch?
pub open spec fn wiki_patch(change: ChangeV) -> bool {
    match change {
        ChangeV::Applied { surface, payload, .. } => surface == Surface::Memory && payload.has_op(
            "wiki_patch"@,
        ),
        _ => false,
    }
}

/// Is this an applied wiki patch?
pub fn is_wiki_patch(change: &ChainChange) -> (r: bool)
    ensures
        r == wiki_patch(change.deep_view()),
{
    match change {
        ChainChange::Applied { proposal_id: _, surface, payload } => *surface == Surface::Memory
            && payload.has_op("wiki_patch"),
        _ => false,
    }
}

/// The blocks that an export carries.
pub open spec fn exported_blocks(blocks: Seq<BlockV>) -> Seq<BlockV>
    decreases blocks.len(),
{
    if blocks.len() == 0 {
        Seq::empty()
    } else {
        let rest = exported_blocks(blocks.drop_last());
        if blocks.last().change is Membership || wiki_patch(blocks.last().change) {
            rest.push(blocks.last())
        } else {
            rest
        }
    }
}

/// The bundle that proves a chain's wiki; none where the chain has no founding.
pub fn bundle_from_chain(blocks: &Vec<ChainBlock>) -> (r: Option<WikiExportBundle>)
    ensures
        match r {
            Some(b) => {
                &&& blocks.deep_view().len() > 0
                &&& blocks.deep_view()[0].change is Genesis
                &&& b.deep_view() == (BundleV {
                    format: WIKI_EXPORT_FORMAT@,
                    genesis: blocks.deep_view()[0],
                    blocks: exported_blocks(blocks.deep_view()),
                })
            },
            None => blocks.deep_view().len() == 0 || !(blocks.deep_view()[0].change is Genesis),
        },
{
    if blocks.len() == 0 {
        return None;
    }
    let ghost all = blocks.deep_view();
    assert(all[0] == blocks@[0].deep_view());
    match &blocks[0].change {
        ChainChange::Genesis { .. } => {
            let mut out: Vec<ChainBlock> = Vec::new();
            let mut i: usize = 0;
            assert(all.take(0) =~= Seq::empty());
            assert(out.deep_view() =~= Seq::empty());
            while i < blocks.len()
                invariant
                    i <= blocks.len(),
                    all == blocks.deep_view(),
                    out.deep_view() == exported_blocks(all.take(i as int)),
                decreases blocks.len() - i,
            {
                assert(all.take(i + 1).drop_last() =~= all.take(i as int));
                assert(all.take(i + 1).last() == blocks@[i as int].deep_view());
                let membership = match &blocks[i].change {
                    ChainChange::Membership { .. } => true,
                    _ => false,
                };
                if membership || is_wiki_patch(&blocks[i].change) {
                    let ghost done = out.deep_view();
                    out.push(blocks[i].clone());
                    assert(out.deep_view() =~= done.push(all[i as int]));
                }
                i = i + 1;
            }
            assert(all.take(i as int) =~= all);
            Some(
                WikiExportBundle {
                    format: WIKI_EXPORT_FORMAT.to_owned(),
                    genesis: blocks[0].clone(),
                    blocks: out,
                },
            )
        },
        _ => None,
    }
}

/// What the walk over a bundle's blocks has established.
pub struct ExportV {
    pub last_height: u64,
    pub membership_blocks: nat,
    pub payloads: Seq<PayloadV>,
    pub seen: Set<u64>,
}

/// `block {height}: {rest}`.
pub open spec fn at_block(height: u64, rest: Seq<char>) -> Seq<char> {
    "block "@ + text::dec(height as nat) + ": "@ + rest
}

/// The walk after one more block: heights ascend, only membership blocks and
/// wiki patches are carried, each with the threshold behind it, and no
/// proposal twice.
pub open spec fn export_step(head: HeadV, x: ExportV, block: BlockV) -> Result<ExportV, Seq<char>> {
    if block.height <= x.last_height {
        Err(at_block(block.height, "heights must ascend"@))
    } else if !(block.change is Membership) && !wiki_patch(block.change) {
        Err(at_block(block.height, "only membership blocks and wiki patches are exported"@))
    } else {
        match signers::backers_of(head.republic_id, head.identities, block) {
            Err(e) => Err(e.text()),
            Ok(names) => if names.len() < head.rule_m {
                Err(
                    at_block(
                        block.height,
                        text::dec(names.len()) + " valid approvals, threshold is "@ + text::dec(
                            head.rule_m as nat,
                        ),
                    ),
                )
            } else {
                match block.change {
                    ChangeV::Membership { op, member, identity_pk, .. } => match signers::membership_fault(
                        head.identities,
                        op,
                        member,
                        identity_pk,
                    ) {
                        Some(e) => Err(at_block(block.height, e.text())),
                        None => Ok(
                            ExportV {
                                last_height: block.height,
                                membership_blocks: x.membership_blocks + 1,
                                ..x
                            },
                        ),
                    },
                    ChangeV::Applied { proposal_id, payload, .. } => if x.seen.contains(
                        proposal_id,
                    ) {
                        Err(
                            at_block(
                                block.height,
                                "proposal "@ + text::dec(proposal_id as nat) + " is applied twice"@,
                            ),
                        )
                    } else {
                        Ok(
                            ExportV {
                                last_height: block.height,
                                payloads: x.payloads.push(payload),
                                seen: x.seen.insert(proposal_id),
                                ..x
                            },
                        )
                    },
                    _ => Err(Seq::empty()),
                }
            },
        }
    }
}

/// The walk over a bundle's blocks.
pub open spec fn export_walk(head: HeadV, x: ExportV, blocks: Seq<BlockV>) -> Result<
    ExportV,
    Seq<char>,
>
    decreases blocks.len(),
{
    if blocks.len() == 0 {
        Ok(x)
    } else {
        match export_step(head, x, blocks[0]) {
            Err(e) => Err(e),
            Ok(next) => export_walk(head, next, blocks.skip(1)),
        }
    }
}

/// The walk before any block.
pub open spec fn export_start() -> ExportV {
    ExportV { last_height: 0, membership_blocks: 0, payloads: Seq::empty(), seen: Set::empty() }
}

/// What a bundle proves before its tree is looked at: the founding head and
/// what the walk over its blocks established.
pub open spec fn bundle_proof(bundle: BundleV) -> Result<(HeadV, ExportV), Seq<char>> {
    if bundle.format != WIKI_EXPORT_FORMAT@ {
        Err("bundle format "@ + bundle.format + " is not "@ + WIKI_EXPORT_FORMAT@)
    } else {
        match signers::founded_head(bundle.genesis) {
            Err(e) => Err("genesis: "@ + e.text()),
            Ok(head) => match export_walk(head, export_start(), bundle.blocks) {
                Err(e) => Err(e),
                Ok(x) => Ok((head, x)),
            },
        }
    }
}

/// What a bundle proves before its tree is looked at.
#[derive(Debug)]
pub struct BundleProof {
    /// The founding head.
    pub head: ChainHead,
    /// The payloads of the verified patches, in chain order.
    pub payloads: Vec<Payload>,
    /// Membership blocks walked.
    pub membership_blocks: usize,
}

fn at_block_text(height: u64, rest: &str) -> (r: String)
    ensures
        r@ == at_block(height, rest@),
{
    let mut out: String = "block ".to_owned();
    append_number(&mut out, height);
    out.append(": ");
    out.append(rest);
    out
}

/// Verifies a bundle's founding, its roster walk and every patch's threshold.
/// The payloads it returns are what the wiki folds from.
pub fn verify_bundle(bundle: &WikiExportBundle) -> (r: Result<BundleProof, String>)
    ensures
        match r {
            Ok(p) => {
                &&& bundle_proof(bundle.deep_view()) is Ok
                &&& p.head.deep_view() == bundle_proof(bundle.deep_view())->Ok_0.0
                &&& p.payloads.deep_view() == bundle_proof(bundle.deep_view())->Ok_0.1.payloads
                &&& p.membership_blocks == bundle_proof(
                    bundle.deep_view(),
                )->Ok_0.1.membership_blocks
            },
            Err(e) => bundle_proof(bundle.deep_view()) == Err::<(HeadV, ExportV), Seq<char>>(e@),
        },
{
    broadcast use vstd::std_specs::btree::group_btree_axioms;

    if !same_text(bundle.format.as_str(), WIKI_EXPORT_FORMAT) {
        let mut out: String = "bundle format ".to_owned();
        out.append(bundle.format.as_str());
        out.append(" is not ");
        out.append(WIKI_EXPORT_FORMAT);
        return Err(out);
    }
    let head = match verify_genesis(&bundle.genesis) {
        Ok(h) => h,
        Err(e) => {
            let mut out: String = "genesis: ".to_owned();
            let why = e.text();
            out.append(why.as_str());
            return Err(out);
        },
    };
    let ghost all = bundle.blocks.deep_view();
    let ghost h = head.deep_view();
    let mut identities = head.identities.clone();
    let mut membership_blocks: usize = 0;
    let mut payloads: Vec<Payload> = Vec::new();
    let mut seen: BTreeSet<u64> = BTreeSet::new();
    let mut last_height: u64 = 0;
    let ghost mut x = export_start();
    let mut i: usize = 0;
    proof {
        assert(all.skip(0) =~= all);
        assert(payloads.deep_view() =~= Seq::empty());
    }
    while i < bundle.blocks.len()
        invariant
            i <= bundle.blocks.len(),
            all == bundle.blocks.deep_view(),
            h == head.deep_view(),
            identities.deep_view() == h.identities,
            signers::founded_head(bundle.genesis.deep_view()) == Ok::<HeadV, FaultV>(h),
            bundle.format@ == WIKI_EXPORT_FORMAT@,
            export_walk(h, export_start(), all) == export_walk(h, x, all.skip(i as int)),
            x == (ExportV {
                last_height,
                membership_blocks: membership_blocks as nat,
                payloads: payloads.deep_view(),
                seen: seen@,
            }),
            membership_blocks <= i,
        decreases bundle.blocks.len() - i,
    {
        let block = &bundle.blocks[i];
        assert(all.skip(i as int)[0] == block.deep_view());
        if block.height <= last_height {
            return Err(at_block_text(block.height, "heights must ascend"));
        }
        let membership = match &block.change {
            ChainChange::Membership { .. } => true,
            _ => false,
        };
        if !membership && !is_wiki_patch(&block.change) {
            return Err(
                at_block_text(
                    block.height,
                    "only membership blocks and wiki patches are exported",
                ),
            );
        }
        let names = match block_signers(head.republic_id.as_str(), &identities, block) {
            Ok(n) => n,
            Err(e) => {
                return Err(e.text());
            },
        };
        if names.len() < head.rule_m as usize {
            let mut why: String = text::decimal(names.len() as u64);
            why.append(" valid approvals, threshold is ");
            append_number(&mut why, head.rule_m as u64);
            return Err(at_block_text(block.height, why.as_str()));
        }
        match &block.change {
            ChainChange::Membership { op, member, identity_pk, .. } => {
                match apply_membership(&mut identities, *op, member.as_str(), identity_pk.as_str()) {
                    Ok(()) => {},
                    Err(e) => {
                        let why = e.text();
                        return Err(at_block_text(block.height, why.as_str()));
                    },
                }
                membership_blocks = membership_blocks + 1;
            },
            ChainChange::Applied { proposal_id, surface: _, payload } => {
                if seen.contains(proposal_id) {
                    let mut why: String = "proposal ".to_owned();
                    append_number(&mut why, *proposal_id);
                    why.append(" is applied twice");
                    return Err(at_block_text(block.height, why.as_str()));
                }
                seen.insert(*proposal_id);
                let ghost done = payloads.deep_view();
                payloads.push(payload.clone());
                assert(payloads.deep_view() =~= done.push(payload.deep_view()));
            },
            _ => {},
        }
        last_height = block.height;
        proof {
            x = export_step(h, x, block.deep_view())->Ok_0;
            assert(all.skip(i as int).skip(1) =~= all.skip(i + 1));
        }
        i = i + 1;
    }
    Ok(BundleProof { head, payloads, membership_blocks })
}

/// The first file of the fold that the shipped tree lacks or changes.
pub open spec fn first_altered(folded: Seq<FileV>, tree: Seq<FileV>) -> Option<Seq<char>>
    decreases folded.len(),
{
    if folded.len() == 0 {
        None
    } else {
        match wiki_tree::content_of(tree, folded[0].path) {
            None => Some("tree: "@ + folded[0].path + " is missing from the export"@),
            Some(shipped) => if shipped != folded[0].content {
                Some("tree: "@ + folded[0].path + " differs from the folded patches"@)
            } else {
                first_altered(folded.skip(1), tree)
            },
        }
    }
}

/// The first file of the shipped tree that the fold lacks.
pub open spec fn first_stray(folded: Seq<FileV>, tree: Seq<FileV>) -> Option<Seq<char>>
    decreases tree.len(),
{
    if tree.len() == 0 {
        None
    } else if wiki_tree::content_of(folded, tree[0].path) is None {
        Some("tree: "@ + tree[0].path + " is not in the folded patches"@)
    } else {
        first_stray(folded, tree.skip(1))
    }
}

/// How a shipped tree departs from the fold of the patches, if it does.
pub open spec fn tree_fault(folded: Seq<FileV>, tree: Seq<FileV>) -> Option<Seq<char>> {
    match first_altered(folded, tree) {
        Some(e) => Some(e),
        None => first_stray(folded, tree),
    }
}

/// Compares a shipped tree with the fold of the patches.
pub fn compare_tree(folded: &WikiTree, tree: &WikiTree) -> (r: Result<(), String>)
    ensures
        match r {
            Ok(()) => tree_fault(folded.deep_view(), tree.deep_view()) is None,
            Err(e) => tree_fault(folded.deep_view(), tree.deep_view()) == Some(e@),
        },
{
    let ghost all = folded.deep_view();
    let ghost shipped_all = tree.deep_view();
    let ours = folded.files();
    let theirs = tree.files();
    let mut i: usize = 0;
    assert(all.skip(0) =~= all);
    while i < ours.len()
        invariant
            i <= ours.len(),
            all == folded.deep_view(),
            all == ours.deep_view(),
            shipped_all == tree.deep_view(),
            shipped_all == theirs.deep_view(),
            first_altered(all, shipped_all) == first_altered(all.skip(i as int), shipped_all),
        decreases ours.len() - i,
    {
        assert(all.skip(i as int)[0] == ours@[i as int].deep_view());
        let mut why: String = "tree: ".to_owned();
        why.append(ours[i].path.as_str());
        match tree.content(ours[i].path.as_str()) {
            None => {
                why.append(" is missing from the export");
                return Err(why);
            },
            Some(shipped) => {
                if *shipped != ours[i].content {
                    why.append(" differs from the folded patches");
                    return Err(why);
                }
            },
        }
        assert(all.skip(i as int).skip(1) =~= all.skip(i + 1));
        i = i + 1;
    }
    let mut j: usize = 0;
    assert(shipped_all.skip(0) =~= shipped_all);
    while j < theirs.len()
        invariant
            j <= theirs.len(),
            all == folded.deep_view(),
            all == ours.deep_view(),
            shipped_all == tree.deep_view(),
            shipped_all == theirs.deep_view(),
            first_altered(all, shipped_all) is None,
            first_stray(all, shipped_all) == first_stray(all, shipped_all.skip(j as int)),
        decreases theirs.len() - j,
    {
        assert(shipped_all.skip(j as int)[0] == theirs@[j as int].deep_view());
        match folded.content(theirs[j].path.as_str()) {
            None => {
                let mut why: String = "tree: ".to_owned();
                why.append(theirs[j].path.as_str());
                why.append(" is not in the folded patches");
                return Err(why);
            },
            Some(_) => {},
        }
        assert(shipped_all.skip(j as int).skip(1) =~= shipped_all.skip(j + 1));
        j = j + 1;
    }
    Ok(())
}

/// A shipped tree passes exactly if it is the fold of the patches.
pub proof fn only_the_fold_passes(folded: Seq<FileV>, tree: Seq<FileV>)
    requires
        wiki_tree::paths_ascend(folded),
        wiki_tree::paths_ascend(tree),
    ensures
        tree_fault(folded, tree) is None <==> folded == tree,
{
    assert(folded.skip(0) =~= folded);
    assert(tree.skip(0) =~= tree);
    lemma_none_altered(folded, tree, 0);
    lemma_none_stray(folded, tree, 0);
    if tree_fault(folded, tree) is None {
        assert forall|path: Seq<char>| #[trigger] wiki_tree::content_of(folded, path)
            == wiki_tree::content_of(tree, path) by {
            if wiki_tree::content_of(folded, path) is Some {
                let k = lemma_content_stands(folded, path);
                assert(wiki_tree::content_of(tree, folded[k].path) == Some(folded[k].content));
            } else if wiki_tree::content_of(tree, path) is Some {
                let k = lemma_content_stands(tree, path);
                assert(wiki_tree::content_of(folded, tree[k].path) is Some);
            }
        }
        wiki_tree::trees_that_read_alike_are_the_same(folded, tree);
    }
    if folded == tree {
        assert forall|i: int| 0 <= i < tree.len() implies wiki_tree::content_of(
            tree,
            (#[trigger] tree[i]).path,
        ) == Some(tree[i].content) by {
            lemma_content_read(tree, i);
        }
    }
}

/// What is read of a tree stands in it.
proof fn lemma_content_stands(tree: Seq<FileV>, path: Seq<char>) -> (k: int)
    requires
        wiki_tree::content_of(tree, path) is Some,
    ensures
        0 <= k < tree.len(),
        tree[k].path == path,
        wiki_tree::content_of(tree, path) == Some(tree[k].content),
    decreases tree.len(),
{
    if tree[0].path == path {
        0
    } else {
        1 + lemma_content_stands(tree.skip(1), path)
    }
}

/// What stands in a tree is read of it.
proof fn lemma_content_read(tree: Seq<FileV>, i: int)
    requires
        wiki_tree::paths_ascend(tree),
        0 <= i < tree.len(),
    ensures
        wiki_tree::content_of(tree, tree[i].path) == Some(tree[i].content),
    decreases tree.len(),
{
    if i > 0 {
        assert(text::before(tree[0].path, tree[i].path));
        text::lemma_before_irreflexive(tree[0].path);
        let rest = tree.skip(1);
        assert forall|a: int, b: int| 0 <= a < b < rest.len() implies text::before(
            (#[trigger] rest[a]).path,
            (#[trigger] rest[b]).path,
        ) by {
            assert(text::before(tree[a + 1].path, tree[b + 1].path));
        }
        lemma_content_read(rest, i - 1);
    }
}

/// Nothing is altered exactly if every file from `n` on is shipped as it is.
proof fn lemma_none_altered(folded: Seq<FileV>, tree: Seq<FileV>, n: int)
    requires
        0 <= n <= folded.len(),
    ensures
        first_altered(folded.skip(n), tree) is None <==> forall|i: int|
            n <= i < folded.len() ==> wiki_tree::content_of(tree, (#[trigger] folded[i]).path)
                == Some(folded[i].content),
    decreases folded.len() - n,
{
    if n < folded.len() {
        lemma_none_altered(folded, tree, n + 1);
        assert(folded.skip(n).skip(1) =~= folded.skip(n + 1));
        assert(folded.skip(n)[0] == folded[n]);
    }
}

/// Nothing is stray exactly if every shipped file from `n` on is in the fold.
proof fn lemma_none_stray(folded: Seq<FileV>, tree: Seq<FileV>, n: int)
    requires
        0 <= n <= tree.len(),
    ensures
        first_stray(folded, tree.skip(n)) is None <==> forall|i: int|
            n <= i < tree.len() ==> wiki_tree::content_of(folded, (#[trigger] tree[i]).path) is Some,
    decreases tree.len() - n,
{
    if n < tree.len() {
        lemma_none_stray(folded, tree, n + 1);
        assert(tree.skip(n).skip(1) =~= tree.skip(n + 1));
        assert(tree.skip(n)[0] == tree[n]);
    }
}

/// The founding size that a founding states.
pub open spec fn founded_n(change: ChangeV) -> u8 {
    match change {
        ChangeV::Genesis { rule_n, .. } => rule_n,
        _ => 0,
    }
}

/// The name that a founding states.
pub open spec fn founded_name(change: ChangeV) -> Seq<char> {
    match change {
        ChangeV::Genesis { name, .. } => name,
        _ => Seq::empty(),
    }
}

/// What a wiki export proves against the tree it shipped, where `folded` is
/// the fold of the bundle's payloads.
pub open spec fn export_report(bundle: BundleV, folded: Seq<FileV>, tree: Seq<FileV>) -> Result<
    ReportV,
    Seq<char>,
> {
    match bundle_proof(bundle) {
        Err(e) => Err(e),
        Ok((head, x)) => match tree_fault(folded, tree) {
            Some(e) => Err(e),
            None => Ok(
                ReportV {
                    republic_id: head.republic_id,
                    name: founded_name(bundle.genesis.change),
                    rule_m: head.rule_m,
                    rule_n: founded_n(bundle.genesis.change),
                    members: signers::seat_names_of(head.identities),
                    membership_blocks: x.membership_blocks as usize,
                    patches: x.payloads.len() as usize,
                    files: tree.len() as usize,
                },
            ),
        },
    }
}

/// What a verified bundle proves against the tree it shipped with, where
/// `folded` is the fold of its payloads.
fn report_on(
    bundle: &WikiExportBundle,
    proven: &BundleProof,
    folded: &WikiTree,
    tree: &WikiTree,
) -> (r: Result<WikiExportReport, String>)
    requires
        bundle_proof(bundle.deep_view()) is Ok,
        proven.head.deep_view() == bundle_proof(bundle.deep_view())->Ok_0.0,
        proven.payloads.deep_view() == bundle_proof(bundle.deep_view())->Ok_0.1.payloads,
        proven.membership_blocks == bundle_proof(bundle.deep_view())->Ok_0.1.membership_blocks,
    ensures
        reports(r, export_report(bundle.deep_view(), folded.deep_view(), tree.deep_view())),
{
    match compare_tree(folded, tree) {
        Ok(()) => {},
        Err(e) => {
            return Err(e);
        },
    }
    let (name, rule_n): (String, u8) = match &bundle.genesis.change {
        ChainChange::Genesis { name, republic_id: _, rule_m: _, rule_n, .. } => (name.clone(), *rule_n),
        _ => (String::new(), 0),
    };
    Ok(
        WikiExportReport {
            republic_id: proven.head.republic_id.clone(),
            name,
            rule_m: proven.head.rule_m,
            rule_n,
            members: seat_names(&proven.head.identities),
            membership_blocks: proven.membership_blocks,
            patches: proven.payloads.len(),
            files: tree.len(),
        },
    )
}

/// Is that result the one that the model has?
pub open spec fn reports(
    r: Result<WikiExportReport, String>,
    model: Result<ReportV, Seq<char>>,
) -> bool {
    match r {
        Ok(rep) => model == Ok::<ReportV, Seq<char>>(rep.deep_view()),
        Err(e) => model == Err::<ReportV, Seq<char>>(e@),
    }
}

/// Verifies a wiki export against the tree it shipped: the founding seal, the
/// roster walk, every patch's threshold, and that the tree is exactly the
/// fold of the payloads that [`verify_bundle`] hands out.
pub fn verify_wiki_export(
    bundle: &WikiExportBundle,
    folded: &WikiTree,
    tree: &WikiTree,
) -> (r: Result<WikiExportReport, String>)
    ensures
        reports(r, export_report(bundle.deep_view(), folded.deep_view(), tree.deep_view())),
{
    match verify_bundle(bundle) {
        Ok(proven) => report_on(bundle, &proven, folded, tree),
        Err(e) => Err(e),
    }
}

/// Did `fold` make the tree `folded` of those payloads?
pub open spec fn folds_to<F: Fn(&Vec<Payload>) -> WikiTree>(
    fold: F,
    payloads: Seq<PayloadV>,
    folded: WikiTree,
) -> bool {
    exists|p: &Vec<Payload>| #[trigger]
        call_ensures(fold, (p,), folded) && p.deep_view() == payloads
}

/// Verifies a wiki export against the tree it shipped, where `fold` applies
/// patches, in order, to an empty tree. It is handed the payloads that the
/// bundle proves, and nothing else; a bundle that does not verify is not folded.
pub fn verify_wiki_export_by<F: Fn(&Vec<Payload>) -> WikiTree>(
    bundle: &WikiExportBundle,
    tree: &WikiTree,
    fold: F,
) -> (r: Result<WikiExportReport, String>)
    requires
        forall|p: &Vec<Payload>| call_requires(fold, (p,)),
    ensures
        match bundle_proof(bundle.deep_view()) {
            Err(e) => r is Err && r->Err_0@ == e,
            Ok((head, x)) => exists|folded: WikiTree| #[trigger]
                folds_to(fold, x.payloads, folded) && reports(
                    r,
                    export_report(bundle.deep_view(), folded.deep_view(), tree.deep_view()),
                ),
        },
{
    match verify_bundle(bundle) {
        Ok(proven) => {
            let folded = fold(&proven.payloads);
            assert(folds_to(fold, proven.payloads.deep_view(), folded));
            report_on(bundle, &proven, &folded, tree)
        },
        Err(e) => Err(e),
    }
}

proof fn lemma_altered(folded: Seq<FileV>, tree: Seq<FileV>, path: Seq<char>)
    requires
        first_altered(folded, tree) is None,
        wiki_tree::content_of(folded, path) is Some,
    ensures
        wiki_tree::content_of(tree, path) == wiki_tree::content_of(folded, path),
    decreases folded.len(),
{
    if folded[0].path != path {
        lemma_altered(folded.skip(1), tree, path);
    }
}

proof fn lemma_stray(folded: Seq<FileV>, tree: Seq<FileV>, path: Seq<char>)
    requires
        first_stray(folded, tree) is None,
        wiki_tree::content_of(tree, path) is Some,
    ensures
        wiki_tree::content_of(folded, path) is Some,
    decreases tree.len(),
{
    if tree[0].path != path {
        lemma_stray(folded, tree.skip(1), path);
    }
}

/// An accepted tree is the fold, file for file: nothing is missing, altered or
/// smuggled in.
pub proof fn an_accepted_tree_is_the_fold(folded: Seq<FileV>, tree: Seq<FileV>, path: Seq<char>)
    requires
        tree_fault(folded, tree) is None,
    ensures
        wiki_tree::content_of(tree, path) == wiki_tree::content_of(folded, path),
{
    if wiki_tree::content_of(folded, path) is Some {
        lemma_altered(folded, tree, path);
    } else if wiki_tree::content_of(tree, path) is Some {
        lemma_stray(folded, tree, path);
    }
}

/// Every block of an accepted bundle carries at least m distinct voices of the
/// founding roster.
pub proof fn every_exported_block_reached_the_threshold(
    head: HeadV,
    x: ExportV,
    blocks: Seq<BlockV>,
    i: int,
)
    requires
        export_walk(head, x, blocks) is Ok,
        0 <= i < blocks.len(),
    ensures
        signers::backers_of(head.republic_id, head.identities, blocks[i]) is Ok,
        signers::backers_of(head.republic_id, head.identities, blocks[i])->Ok_0.len()
            >= head.rule_m,
        blocks[i].height > x.last_height,
        forall|j: int| 0 <= j < i ==> (#[trigger] blocks[j]).height < blocks[i].height,
    decreases blocks.len(),
{
    let next = export_step(head, x, blocks[0])->Ok_0;
    if i > 0 {
        assert(blocks.skip(1)[i - 1] == blocks[i]);
        every_exported_block_reached_the_threshold(head, next, blocks.skip(1), i - 1);
        assert forall|j: int| 0 <= j < i implies (#[trigger] blocks[j]).height
            < blocks[i].height by {
            if j > 0 {
                assert(blocks.skip(1)[j - 1] == blocks[j]);
            }
        }
    }
}

} // verus!
