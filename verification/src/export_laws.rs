//! What holds of a wiki export as a whole.

use crate::chain_laws;
use crate::model::{BlockV, ChangeV, IdentityV, MembershipOp, Surface};
use crate::payload::PayloadV;
use crate::signers;
use crate::signers::HeadV;
use crate::walk;
use crate::wiki_export;
use crate::wiki_export::{BundleV, ExportV};
use crate::wiki_tree::FileV;
use vstd::prelude::*;

verus! {

/// Is this the application of a wiki patch: an applied entry of the memory
/// whose operation is one?
pub open spec fn patches_the_wiki(change: ChangeV) -> bool {
    change matches ChangeV::Applied { surface, payload, .. } && surface == Surface::Memory
        && payload.text("op"@) == Some("wiki_patch"@)
}

/// The payloads that the blocks apply, in order.
pub open spec fn applied_payloads(blocks: Seq<BlockV>) -> Seq<PayloadV> {
    blocks.filter(|b: BlockV| b.change is Applied).map_values(
        |b: BlockV| b.change->Applied_payload,
    )
}

/// Does the block fit where it stands in an export? It is above every block
/// before it, carries a membership change or a wiki patch with the threshold
/// behind it, restores a seat of the roster under the seat's own key, or
/// applies a proposal that no block before it applied.
pub open spec fn fits(head: HeadV, x: ExportV, blocks: Seq<BlockV>, i: int) -> bool {
    let b = blocks[i];
    &&& b.height > x.last_height
    &&& forall|j: int| 0 <= j < i ==> (#[trigger] blocks[j]).height < b.height
    &&& signers::backers_of(head.republic_id, head.identities, b) is Ok
    &&& signers::backers_of(head.republic_id, head.identities, b)->Ok_0.len() >= head.rule_m
    &&& match b.change {
        ChangeV::Membership { op, member, identity_pk, .. } => {
            &&& op == MembershipOp::Restored
            &&& seated(head.identities, member, identity_pk)
        },
        ChangeV::Applied { proposal_id, .. } => {
            &&& patches_the_wiki(b.change)
            &&& !x.seen.contains(proposal_id)
            &&& forall|j: int|
                0 <= j < i && (#[trigger] blocks[j]).change is Applied
                    ==> blocks[j].change->Applied_proposal_id != proposal_id
        },
        _ => false,
    }
}

/// Does the member's seat, the first under its name, carry that key?
pub open spec fn seated(identities: Seq<IdentityV>, member: Seq<char>, key: Seq<char>) -> bool {
    exists|k: int|
        0 <= k < identities.len() && (#[trigger] identities[k]).member == member
            && identities[k].identity_pk == key && forall|j: int|
            0 <= j < k ==> (#[trigger] identities[j]).member != member
}

/// A restore fits a roster exactly where the member's seat carries the key
/// that it names; no seat is ever added.
pub proof fn a_restore_needs_its_own_seat(
    identities: Seq<IdentityV>,
    op: MembershipOp,
    member: Seq<char>,
    key: Seq<char>,
)
    ensures
        signers::membership_fault(identities, op, member, key) is None <==> op
            == MembershipOp::Restored && seated(identities, member, key),
{
    lemma_seat(identities, member);
    match signers::seat_of(identities, member) {
        Some(seat) => {
            let k = choose|k: int|
                0 <= k < identities.len() && (#[trigger] identities[k]) == seat && forall|j: int|
                    0 <= j < k ==> (#[trigger] identities[j]).member != member;
            assert(identities[k].member == member);
            if seated(identities, member, key) {
                let i = choose|i: int|
                    0 <= i < identities.len() && (#[trigger] identities[i]).member == member
                        && identities[i].identity_pk == key && forall|j: int|
                        0 <= j < i ==> (#[trigger] identities[j]).member != member;
                if i < k {
                    assert(identities[i].member != member);
                } else if k < i {
                    assert(identities[k].member != member);
                }
            }
        },
        None => {},
    }
}

/// The seat of a member is the first under its name.
pub proof fn lemma_seat(identities: Seq<IdentityV>, member: Seq<char>)
    ensures
        match signers::seat_of(identities, member) {
            Some(seat) => seat.member == member && exists|k: int|
                0 <= k < identities.len() && (#[trigger] identities[k]) == seat && forall|j: int|
                    0 <= j < k ==> (#[trigger] identities[j]).member != member,
            None => forall|k: int|
                0 <= k < identities.len() ==> (#[trigger] identities[k]).member != member,
        },
    decreases identities.len(),
{
    if identities.len() > 0 {
        let rest = identities.skip(1);
        lemma_seat(rest, member);
        if identities[0].member == member {
            assert(identities[0] == identities[0]);
        } else {
            match signers::seat_of(rest, member) {
                Some(seat) => {
                    let k = choose|k: int|
                        0 <= k < rest.len() && (#[trigger] rest[k]) == seat && forall|j: int|
                            0 <= j < k ==> (#[trigger] rest[j]).member != member;
                    assert(identities[k + 1] == seat);
                    assert forall|j: int| 0 <= j < k + 1 implies (#[trigger] identities[j]).member
                        != member by {
                        if j > 0 {
                            assert(rest[j - 1] == identities[j]);
                        }
                    }
                },
                None => {
                    assert forall|k: int| 0 <= k < identities.len() implies (
                    #[trigger] identities[k]).member != member by {
                        if k > 0 {
                            assert(rest[k - 1] == identities[k]);
                        }
                    }
                },
            }
        }
    }
}

/// The walk over an export and one block more.
proof fn lemma_walk_push(head: HeadV, x: ExportV, blocks: Seq<BlockV>, block: BlockV)
    ensures
        wiki_export::export_walk(head, x, blocks.push(block)) == (match wiki_export::export_walk(
            head,
            x,
            blocks,
        ) {
            Err(e) => Err(e),
            Ok(y) => wiki_export::export_step(head, y, block),
        }),
    decreases blocks.len(),
{
    let all = blocks.push(block);
    if blocks.len() == 0 {
        assert(all.skip(1) =~= Seq::empty());
        match wiki_export::export_step(head, x, block) {
            Err(e) => {},
            Ok(y) => {
                assert(wiki_export::export_walk(head, y, all.skip(1)) == Ok::<ExportV, Seq<char>>(
                    y,
                ));
            },
        }
    } else {
        assert(all[0] == blocks[0]);
        assert(all.skip(1) =~= blocks.skip(1).push(block));
        match wiki_export::export_step(head, x, blocks[0]) {
            Err(e) => {},
            Ok(y) => {
                lemma_walk_push(head, y, blocks.skip(1), block);
            },
        }
    }
}

/// A walk succeeds exactly where every block fits, and it carries what the
/// blocks say.
proof fn lemma_walk(head: HeadV, x: ExportV, blocks: Seq<BlockV>)
    ensures
        wiki_export::export_walk(head, x, blocks) is Ok <==> forall|i: int|
            0 <= i < blocks.len() ==> #[trigger] fits(head, x, blocks, i),
        wiki_export::export_walk(head, x, blocks) matches Ok(y) ==> {
            &&& y.payloads == x.payloads + applied_payloads(blocks)
            &&& y.membership_blocks == x.membership_blocks + blocks.filter(
                |b: BlockV| b.change is Membership,
            ).len()
            &&& y.last_height == (if blocks.len() == 0 {
                x.last_height
            } else {
                blocks.last().height
            })
            &&& forall|id: u64| #[trigger]
                y.seen.contains(id) <==> (x.seen.contains(id) || exists|j: int|
                    0 <= j < blocks.len() && (#[trigger] blocks[j]).change is Applied
                        && blocks[j].change->Applied_proposal_id == id)
        },
    decreases blocks.len(),
{
    reveal(Seq::filter);
    if blocks.len() == 0 {
        assert(applied_payloads(blocks) =~= Seq::empty());
        assert(x.payloads + applied_payloads(blocks) =~= x.payloads);
    } else {
        let front = blocks.drop_last();
        let top = blocks.last();
        let n = blocks.len() - 1;
        assert(blocks =~= front.push(top));
        lemma_walk_push(head, x, front, top);
        lemma_walk(head, x, front);
        assert forall|i: int| 0 <= i < n implies #[trigger] fits(head, x, front, i) == fits(
            head,
            x,
            blocks,
            i,
        ) by {
            assert(front[i] == blocks[i]);
            if fits(head, x, front, i) {
                assert forall|j: int| 0 <= j < i implies (#[trigger] blocks[j]).height
                    < blocks[i].height by {
                    assert(front[j] == blocks[j]);
                }
                if blocks[i].change is Applied {
                    assert forall|j: int|
                        0 <= j < i && (#[trigger] blocks[j]).change is Applied implies blocks[j].change->Applied_proposal_id
                        != blocks[i].change->Applied_proposal_id by {
                        assert(front[j] == blocks[j]);
                    }
                }
            }
            if fits(head, x, blocks, i) {
                assert forall|j: int| 0 <= j < i implies (#[trigger] front[j]).height
                    < front[i].height by {
                    assert(front[j] == blocks[j]);
                }
                if blocks[i].change is Applied {
                    assert forall|j: int|
                        0 <= j < i && (#[trigger] front[j]).change is Applied implies front[j].change->Applied_proposal_id
                        != front[i].change->Applied_proposal_id by {
                        assert(front[j] == blocks[j]);
                    }
                }
            }
        }
        if wiki_export::export_walk(head, x, front) is Ok {
            let y = wiki_export::export_walk(head, x, front)->Ok_0;
            assert forall|i: int| 0 <= i < n implies fits(head, x, blocks, i) by {
                assert(fits(head, x, front, i));
            }
            match top.change {
                ChangeV::Membership { op, member, identity_pk, .. } => {
                    a_restore_needs_its_own_seat(head.identities, op, member, identity_pk);
                },
                _ => {},
            }
            lemma_top(head, x, y, blocks);
            if wiki_export::export_walk(head, x, blocks) is Ok {
                let z = wiki_export::export_walk(head, x, blocks)->Ok_0;
                assert(z.payloads =~= x.payloads + applied_payloads(blocks));
                assert forall|id: u64| #[trigger] z.seen.contains(id) <==> (x.seen.contains(id)
                    || exists|j: int|
                    0 <= j < blocks.len() && (#[trigger] blocks[j]).change is Applied
                        && blocks[j].change->Applied_proposal_id == id) by {
                    if x.seen.contains(id) {
                        assert(y.seen.contains(id));
                    }
                    if exists|j: int|
                        0 <= j < blocks.len() && (#[trigger] blocks[j]).change is Applied
                            && blocks[j].change->Applied_proposal_id == id {
                        let j = choose|j: int|
                            0 <= j < blocks.len() && (#[trigger] blocks[j]).change is Applied
                                && blocks[j].change->Applied_proposal_id == id;
                        if j < n {
                            assert(front[j] == blocks[j]);
                            assert(y.seen.contains(id));
                        }
                    }
                    if z.seen.contains(id) && !x.seen.contains(id) {
                        if y.seen.contains(id) {
                            let j = choose|j: int|
                                0 <= j < front.len() && (#[trigger] front[j]).change is Applied
                                    && front[j].change->Applied_proposal_id == id;
                            assert(blocks[j] == front[j]);
                        } else {
                            assert(blocks[n] == top);
                        }
                    }
                }
            }
        } else {
            let i = choose|i: int| 0 <= i < n && !#[trigger] fits(head, x, front, i);
            assert(!fits(head, x, blocks, i));
        }
    }
}

/// The last block is taken exactly where it fits.
proof fn lemma_top(head: HeadV, x: ExportV, y: ExportV, blocks: Seq<BlockV>)
    requires
        blocks.len() > 0,
        forall|i: int| 0 <= i < blocks.len() - 1 ==> fits(head, x, blocks, i),
        y.last_height == (if blocks.len() == 1 {
            x.last_height
        } else {
            blocks[blocks.len() - 2].height
        }),
        forall|id: u64| #[trigger]
            y.seen.contains(id) <==> (x.seen.contains(id) || exists|j: int|
                0 <= j < blocks.drop_last().len() && (
                #[trigger] blocks.drop_last()[j]).change is Applied
                    && blocks.drop_last()[j].change->Applied_proposal_id == id),
    ensures
        wiki_export::export_step(head, y, blocks.last()) is Ok <==> fits(
            head,
            x,
            blocks,
            blocks.len() - 1,
        ),
{
    let n = blocks.len() - 1;
    let top = blocks.last();
    let front = blocks.drop_last();
    match top.change {
        ChangeV::Membership { op, member, identity_pk, .. } => {
            a_restore_needs_its_own_seat(head.identities, op, member, identity_pk);
        },
        ChangeV::Applied { proposal_id, .. } => {
            if y.seen.contains(proposal_id) && !x.seen.contains(proposal_id) {
                let j = choose|j: int|
                    0 <= j < front.len() && (#[trigger] front[j]).change is Applied
                        && front[j].change->Applied_proposal_id == proposal_id;
                assert(blocks[j] == front[j]);
            }
            assert forall|j: int|
                0 <= j < n && (#[trigger] blocks[j]).change is Applied && !y.seen.contains(
                    proposal_id,
                ) implies blocks[j].change->Applied_proposal_id != proposal_id by {
                assert(front[j] == blocks[j]);
            }
        },
        _ => {},
    }
    if n > 0 {
        assert(fits(head, x, blocks, n - 1));
        if top.height > y.last_height {
            assert forall|j: int| 0 <= j < n implies (#[trigger] blocks[j]).height < top.height by {
                if j < n - 1 {
                    assert(blocks[j].height < blocks[n - 1].height);
                }
            }
            assert(blocks[n - 1].height > x.last_height);
        } else {
            assert(blocks[n - 1].height == y.last_height);
        }
    }
}

/// Does the bundle prove itself: is it of the known format, does its founding
/// found a republic, and does every block fit where it stands?
pub open spec fn proves_itself(bundle: BundleV) -> bool {
    &&& bundle.format == "molt-wiki-export-v1"@
    &&& signers::founded_head(bundle.genesis) is Ok
    &&& forall|i: int|
        0 <= i < bundle.blocks.len() ==> #[trigger] fits(
            signers::founded_head(bundle.genesis)->Ok_0,
            ExportV {
                last_height: 0,
                membership_blocks: 0,
                payloads: Seq::empty(),
                seen: Set::empty(),
            },
            bundle.blocks,
            i,
        )
}

/// A bundle is accepted exactly where it proves itself.
pub proof fn a_bundle_is_accepted_exactly_where_it_proves_itself(bundle: BundleV)
    ensures
        wiki_export::bundle_proof(bundle) is Ok <==> proves_itself(bundle),
{
    if signers::founded_head(bundle.genesis) is Ok {
        lemma_walk(
            signers::founded_head(bundle.genesis)->Ok_0,
            wiki_export::export_start(),
            bundle.blocks,
        );
    }
}

/// What an accepted bundle hands out to be folded is exactly what its applied
/// blocks carry, in the order in which it carries them, which is by height.
/// The membership changes are counted, each once.
pub proof fn the_payloads_are_handed_out_in_order(bundle: BundleV)
    requires
        wiki_export::bundle_proof(bundle) is Ok,
    ensures
        ({
            let (head, x) = wiki_export::bundle_proof(bundle)->Ok_0;
            &&& x.payloads == bundle.blocks.filter(|b: BlockV| b.change is Applied).map_values(
                |b: BlockV| b.change->Applied_payload,
            )
            &&& x.membership_blocks == bundle.blocks.filter(
                |b: BlockV| b.change is Membership,
            ).len()
            &&& x.payloads.len() + x.membership_blocks == bundle.blocks.len()
            &&& forall|i: int, j: int|
                0 <= i < j < bundle.blocks.len() ==> (#[trigger] bundle.blocks[i]).height < (
                #[trigger] bundle.blocks[j]).height
            &&& forall|i: int|
                0 <= i < bundle.blocks.len() ==> (#[trigger] bundle.blocks[i]).change is Membership
                    || patches_the_wiki(bundle.blocks[i].change)
        }),
{
    let head = signers::founded_head(bundle.genesis)->Ok_0;
    let start = wiki_export::export_start();
    lemma_walk(head, start, bundle.blocks);
    let x = wiki_export::bundle_proof(bundle)->Ok_0.1;
    assert(start.payloads + applied_payloads(bundle.blocks) =~= applied_payloads(bundle.blocks));
    assert forall|i: int, j: int| 0 <= i < j < bundle.blocks.len() implies (
    #[trigger] bundle.blocks[i]).height < (#[trigger] bundle.blocks[j]).height by {
        assert(fits(head, start, bundle.blocks, j));
    }
    assert forall|i: int| 0 <= i < bundle.blocks.len() implies (
    #[trigger] bundle.blocks[i]).change is Membership || patches_the_wiki(
        bundle.blocks[i].change,
    ) by {
        assert(fits(head, start, bundle.blocks, i));
    }
    lemma_two_kinds(bundle.blocks);
}

/// Blocks of two kinds are counted by the two.
proof fn lemma_two_kinds(blocks: Seq<BlockV>)
    requires
        forall|i: int|
            0 <= i < blocks.len() ==> (#[trigger] blocks[i]).change is Membership
                || blocks[i].change is Applied,
    ensures
        blocks.filter(|b: BlockV| b.change is Applied).len() + blocks.filter(
            |b: BlockV| b.change is Membership,
        ).len() == blocks.len(),
    decreases blocks.len(),
{
    reveal(Seq::filter);
    if blocks.len() > 0 {
        let front = blocks.drop_last();
        assert forall|i: int| 0 <= i < front.len() implies (
        #[trigger] front[i]).change is Membership || front[i].change is Applied by {
            assert(front[i] == blocks[i]);
        }
        lemma_two_kinds(front);
        assert(blocks[blocks.len() - 1].change is Membership || blocks[blocks.len()
            - 1].change is Applied);
    }
}

/// What a founding head says is what the founding was sealed with.
pub proof fn a_head_is_what_was_founded(block: BlockV)
    requires
        signers::founded_head(block) is Ok,
    ensures
        ({
            let h = signers::founded_head(block)->Ok_0;
            &&& block.height == 0
            &&& block.change is Genesis
            &&& h.height == 0
            &&& h.republic_id == block.change->Genesis_republic_id
            &&& h.rule_m == block.change->Genesis_rule_m
            &&& h.identities == block.change->Genesis_identities
            &&& 0 < h.rule_m <= block.change->Genesis_rule_n
            &&& block.change->Genesis_rule_n == h.identities.len()
            &&& h.hash == signers::block_hash_of(h.republic_id, block)
        }),
{
}

/// The report on an accepted export says what the founding was sealed with and
/// what the bundle and the tree hold.
pub proof fn a_report_says_what_the_bundle_holds(
    bundle: BundleV,
    folded: Seq<FileV>,
    tree: Seq<FileV>,
)
    requires
        wiki_export::export_report(bundle, folded, tree) is Ok,
        bundle.blocks.len() <= usize::MAX,
        tree.len() <= usize::MAX,
    ensures
        ({
            let r = wiki_export::export_report(bundle, folded, tree)->Ok_0;
            &&& bundle.genesis.change matches ChangeV::Genesis {
                name,
                republic_id,
                rule_m,
                rule_n,
                identities,
                ..
            } && {
                &&& r.name == name
                &&& r.republic_id == republic_id
                &&& r.rule_m == rule_m
                &&& r.rule_n == rule_n
                &&& r.members.len() == identities.len()
                &&& forall|i: int|
                    0 <= i < identities.len() ==> #[trigger] r.members[i] == identities[i].member
            }
            &&& r.membership_blocks == bundle.blocks.filter(
                |b: BlockV| b.change is Membership,
            ).len()
            &&& r.patches == bundle.blocks.filter(|b: BlockV| b.change is Applied).len()
            &&& r.files == tree.len()
        }),
{
    the_payloads_are_handed_out_in_order(bundle);
}

/// An export carries the chain's membership changes and wiki patches, all of
/// them and in chain order.
pub proof fn an_export_leaves_no_patch_out(blocks: Seq<BlockV>)
    ensures
        wiki_export::exported_blocks(blocks) == blocks.filter(
            |b: BlockV| b.change is Membership || patches_the_wiki(b.change),
        ),
    decreases blocks.len(),
{
    reveal(Seq::filter);
    if blocks.len() > 0 {
        an_export_leaves_no_patch_out(blocks.drop_last());
    }
}

/// What a verified chain exports walks as the chain did.
proof fn lemma_chain_walks(blocks: Seq<BlockV>)
    requires
        walk::walked(blocks) is Ok,
    ensures
        ({
            let w = walk::walked(blocks)->Ok_0;
            let head = signers::founded_head(blocks[0])->Ok_0;
            let y = wiki_export::export_walk(
                head,
                wiki_export::export_start(),
                wiki_export::exported_blocks(blocks),
            );
            &&& signers::founded_head(blocks[0]) is Ok
            &&& w.head.republic_id == head.republic_id
            &&& w.head.identities == head.identities
            &&& w.head.rule_m == head.rule_m
            &&& w.running.roster == head.identities
            &&& y is Ok
            &&& y->Ok_0.last_height <= w.head.height
            &&& y->Ok_0.seen.subset_of(w.seen)
        }),
    decreases blocks.len(),
{
    let w = walk::walked(blocks)->Ok_0;
    let head = signers::founded_head(blocks[0])->Ok_0;
    let start = wiki_export::export_start();
    chain_laws::a_verified_chain_is_sound(blocks);
    if blocks.len() == 1 {
        assert(blocks.skip(1) =~= Seq::empty());
        assert(blocks.drop_last() =~= Seq::empty());
        assert(blocks[0].change is Genesis);
        assert(wiki_export::exported_blocks(blocks.drop_last()) =~= Seq::empty());
        assert(wiki_export::exported_blocks(blocks) =~= Seq::empty());
    } else {
        let front = blocks.drop_last();
        let top = blocks.last();
        assert(blocks =~= front.push(top));
        chain_laws::extending_equals_walking_again(front, top);
        assert(front[0] == blocks[0]);
        lemma_chain_walks(front);
        let v = walk::walked(front)->Ok_0;
        chain_laws::lemma_step_facts(v, top);
        chain_laws::a_verified_chain_is_sound(front);
        let sent = wiki_export::exported_blocks(front);
        let y = wiki_export::export_walk(head, start, sent)->Ok_0;
        assert(blocks[blocks.len() - 1].height == blocks.len() - 1);
        assert(top.height == v.head.height + 1);
        if top.change is Membership || patches_the_wiki(top.change) {
            lemma_walk_push(head, start, sent, top);
        }
    }
}

/// What a verified chain exports is accepted: an honest exporter is believed.
pub proof fn the_export_of_a_verified_chain_is_accepted(blocks: Seq<BlockV>)
    requires
        walk::walked(blocks) is Ok,
    ensures
        wiki_export::bundle_proof(
            BundleV {
                format: "molt-wiki-export-v1"@,
                genesis: blocks[0],
                blocks: wiki_export::exported_blocks(blocks),
            },
        ) is Ok,
{
    lemma_chain_walks(blocks);
}

} // verus!
