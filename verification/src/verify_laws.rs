//! What a block, a founding or a summary needs to be believed.

use crate::canonical;
use crate::export_laws;
use crate::fault::FaultV;
use crate::fold;
use crate::identity;
use crate::model::{AttestationV, BlockV, ChangeV, IdentityV, MembershipOp, SummaryV};
use crate::signers;
use crate::text;
use crate::walk;
use crate::walk::WalkV;
use vstd::prelude::*;

verus! {

/// Did that member sign those bytes: is there a signature under its name that
/// its seat's own key, the first under that name, accepts?
pub open spec fn signed(
    identities: Seq<IdentityV>,
    bytes: Seq<u8>,
    sigs: Seq<AttestationV>,
    member: Seq<char>,
) -> bool {
    exists|i: int, k: int|
        0 <= i < sigs.len() && 0 <= k < identities.len() && (#[trigger] sigs[i]).member == member
            && (#[trigger] identities[k]).member == member && identity::verifies(
            identities[k].identity_pk,
            bytes,
            sigs[i].sig,
        ) && forall|j: int| 0 <= j < k ==> (#[trigger] identities[j]).member != member
}

/// Two members are the same seat only where they are the first under the name.
proof fn lemma_signed(
    identities: Seq<IdentityV>,
    bytes: Seq<u8>,
    sigs: Seq<AttestationV>,
    member: Seq<char>,
)
    ensures
        signers::signers_of(identities, bytes, sigs).contains(member) <==> signed(
            identities,
            bytes,
            sigs,
            member,
        ),
{
    signers::signers_are_distinct_attesting_members(identities, bytes, sigs);
    export_laws::lemma_seat(identities, member);
    if signers::signers_of(identities, bytes, sigs).contains(member) {
        let i = choose|i: int|
            0 <= i < sigs.len() && #[trigger] sigs[i].member == member && signers::attests(
                identities,
                bytes,
                sigs[i],
            );
        let seat = signers::seat_of(identities, member)->0;
        let k = choose|k: int|
            0 <= k < identities.len() && (#[trigger] identities[k]) == seat && forall|j: int|
                0 <= j < k ==> (#[trigger] identities[j]).member != member;
        assert(sigs[i].member == member);
        assert(identities[k].member == member);
    }
    if signed(identities, bytes, sigs, member) {
        let (i, k) = choose|i: int, k: int|
            0 <= i < sigs.len() && 0 <= k < identities.len() && (#[trigger] sigs[i]).member
                == member && (#[trigger] identities[k]).member == member && identity::verifies(
                identities[k].identity_pk,
                bytes,
                sigs[i].sig,
            ) && forall|j: int| 0 <= j < k ==> (#[trigger] identities[j]).member != member;
        match signers::seat_of(identities, member) {
            Some(seat) => {
                let n = choose|n: int|
                    0 <= n < identities.len() && (#[trigger] identities[n]) == seat && forall|
                        j: int,
                    |
                        0 <= j < n ==> (#[trigger] identities[j]).member != member;
                if n < k {
                    assert(identities[n].member != member);
                } else if k < n {
                    assert(identities[k].member != member);
                }
                assert(signers::attests(identities, bytes, sigs[i]));
            },
            None => {
                assert(identities[k].member != member);
            },
        }
    }
}

/// A block is backed by exactly the members of the roster that signed it at
/// its height, and by a returning member that consented; each counts once. It
/// is refused outright only for a consent: one on anything but a restore, one
/// by a member that signs as well or has no seat, or one that does not verify.
pub proof fn a_block_is_backed_by_its_signers(
    rid: Seq<char>,
    identities: Seq<IdentityV>,
    block: BlockV,
)
    ensures
        ({
            let bytes = canonical::approval_bytes_of(rid, block.height, block.change);
            let consent = match block.change {
                ChangeV::Membership { consent, .. } => consent,
                _ => None,
            };
            &&& signers::backers_of(rid, identities, block) is Ok <==> (consent is None || (
            block.change matches ChangeV::Membership { op, member, nostr_pk, .. } && {
                &&& op == MembershipOp::Restored
                &&& !signed(identities, bytes, block.sigs, member)
                &&& signers::seat_of(identities, member) matches Some(seat)
                    && identity::verifies(
                    seat.identity_pk,
                    canonical::restore_consent_bytes_of(
                        rid,
                        member,
                        seat.identity_pk,
                        match nostr_pk {
                            Some(pk) => pk,
                            None => Seq::empty(),
                        },
                    ),
                    consent->0,
                )
            }))
            &&& signers::backers_of(rid, identities, block) matches Ok(names) ==> {
                &&& text::ascending(names)
                &&& forall|m: Seq<char>| #[trigger]
                    names.contains(m) <==> (signed(identities, bytes, block.sigs, m) || (consent
                        is Some && m == block.change->Membership_member))
            }
        }),
{
    let bytes = canonical::approval_bytes_of(rid, block.height, block.change);
    let voices = signers::signers_of(identities, bytes, block.sigs);
    signers::signers_are_distinct_attesting_members(identities, bytes, block.sigs);
    assert forall|m: Seq<char>| #[trigger] voices.contains(m) <==> signed(
        identities,
        bytes,
        block.sigs,
        m,
    ) by {
        lemma_signed(identities, bytes, block.sigs, m);
    }
    match block.change {
        ChangeV::Membership { member, consent: Some(c), .. } => {
            text::lemma_insert_name(voices, member);
            lemma_signed(identities, bytes, block.sigs, member);
            if signers::backers_of(rid, identities, block) is Ok {
                let names = signers::backers_of(rid, identities, block)->Ok_0;
                assert forall|m: Seq<char>| #[trigger]
                    names.contains(m) <==> (signed(identities, bytes, block.sigs, m) || m
                        == member) by {
                    assert(voices.contains(m) <==> signed(identities, bytes, block.sigs, m));
                }
            }
        },
        _ => {},
    }
}

/// Does the block follow the walk? It stands right above the head and links to
/// it, is backed by the threshold, and changes something that can be changed
/// there: a proposal that was not applied before, the return of a seat under
/// its own key, or a cut right below it to exactly the state that the walk has
/// come to.
pub open spec fn follows(w: WalkV, block: BlockV) -> bool {
    &&& block.height == w.head.height + 1
    &&& block.prev == w.head.hash
    &&& signers::backers_of(w.head.republic_id, w.head.identities, block) is Ok
    &&& signers::backers_of(w.head.republic_id, w.head.identities, block)->Ok_0.len()
        >= w.head.rule_m
    &&& match block.change {
        ChangeV::Genesis { .. } => false,
        ChangeV::Applied { proposal_id, .. } => !w.seen.contains(proposal_id),
        ChangeV::Membership { op, member, identity_pk, .. } => op == MembershipOp::Restored
            && export_laws::seated(w.head.identities, member, identity_pk),
        ChangeV::Checkpoint { upto, state_hash } => {
            &&& upto == block.height - 1
            &&& (w.floor is Some ==> w.floor->0 <= upto)
            &&& state_hash == identity::hash_text(
                canonical::checkpoint_bytes_of(
                    SummaryV {
                        consumed_ids: fold::sorted_ids(w.running.consumed_ids),
                        upto,
                        ..w.running
                    },
                ),
            )
        },
    }
}

/// A block is taken exactly where it follows, and the head moves to it: to its
/// height and its hash, under the same republic, rule and roster.
pub proof fn a_block_is_taken_exactly_where_it_follows(w: WalkV, block: BlockV)
    requires
        w.running.roster == w.head.identities,
    ensures
        walk::stepped(w, block) is Ok <==> follows(w, block),
        walk::stepped(w, block) matches Ok(next) ==> {
            &&& next.head.height == block.height
            &&& next.head.hash == identity::hash_text(
                canonical::block_link_bytes_of(w.head.republic_id, block),
            )
            &&& next.head.republic_id == w.head.republic_id
            &&& next.head.rule_m == w.head.rule_m
            &&& next.head.identities == w.head.identities
            &&& next.running.roster == w.running.roster
            &&& next.floor == w.floor
            &&& forall|id: u64| #[trigger]
                next.seen.contains(id) <==> (w.seen.contains(id) || (block.change is Applied && id
                    == block.change->Applied_proposal_id))
        },
{
    reveal(walk::stepped);
    reveal(signers::next_head);
    match block.change {
        ChangeV::Membership { op, member, identity_pk, .. } => {
            export_laws::a_restore_needs_its_own_seat(
                w.head.identities,
                op,
                member,
                identity_pk,
            );
        },
        _ => {},
    }
}

/// A founding is believed exactly where it stands at height zero on a root of
/// zeros, its rule fits its roster, its id is that of its own content, and
/// every seat signed it; no two seats then share a name.
pub proof fn a_founding_is_signed_by_every_seat(block: BlockV)
    ensures
        signers::founded_head(block) is Ok ==> {
            &&& block.height == 0
            &&& block.prev.len() == 64
            &&& forall|i: int| 0 <= i < 64 ==> #[trigger] block.prev[i] == '0'
            &&& block.change matches ChangeV::Genesis {
                name,
                republic_id,
                rule_m,
                rule_n,
                identities,
                ..
            } && {
                &&& 0 < rule_m <= rule_n
                &&& rule_n == identities.len()
                &&& republic_id == identity::republic_id_of(name, rule_m, rule_n, identities)
                &&& forall|i: int, j: int|
                    0 <= i < j < identities.len() ==> (#[trigger] identities[i]).member != (
                    #[trigger] identities[j]).member
                &&& forall|i: int|
                    0 <= i < identities.len() ==> signed(
                        identities,
                        canonical::approval_bytes_of(republic_id, 0, block.change),
                        block.sigs,
                        (#[trigger] identities[i]).member,
                    )
            }
        },
        block.height == 0 && block.prev == canonical::GENESIS_PREV@ && (
        block.change matches ChangeV::Genesis {
            name,
            republic_id,
            rule_m,
            rule_n,
            identities,
            ..
        } && {
            &&& 0 < rule_m <= rule_n
            &&& rule_n == identities.len()
            &&& republic_id == identity::republic_id_of(name, rule_m, rule_n, identities)
            &&& forall|i: int, j: int|
                0 <= i < j < identities.len() ==> (#[trigger] identities[i]).member != (
                #[trigger] identities[j]).member
            &&& forall|i: int|
                0 <= i < identities.len() ==> signed(
                    identities,
                    canonical::approval_bytes_of(republic_id, 0, block.change),
                    block.sigs,
                    (#[trigger] identities[i]).member,
                )
        }) ==> signers::founded_head(block) is Ok,
{
    reveal_strlit("0000000000000000000000000000000000000000000000000000000000000000");
    match block.change {
        ChangeV::Genesis { republic_id, identities, .. } => {
            lemma_all_signed(
                identities,
                canonical::approval_bytes_of(republic_id, 0, block.change),
                block.sigs,
            );
        },
        _ => {},
    }
}

/// As many signers as seats are all the seats, each under a name of its own.
proof fn lemma_all_signed(identities: Seq<IdentityV>, bytes: Seq<u8>, sigs: Seq<AttestationV>)
    ensures
        signers::signers_of(identities, bytes, sigs).len() == identities.len() <==> {
            &&& forall|i: int, j: int|
                0 <= i < j < identities.len() ==> (#[trigger] identities[i]).member != (
                #[trigger] identities[j]).member
            &&& forall|i: int|
                0 <= i < identities.len() ==> signed(
                    identities,
                    bytes,
                    sigs,
                    (#[trigger] identities[i]).member,
                )
        },
{
    let voices = signers::signers_of(identities, bytes, sigs);
    let names = signers::seat_names_of(identities);
    signers::signers_are_distinct_attesting_members(identities, bytes, sigs);
    voices.unique_seq_to_set();
    names.lemma_cardinality_of_set();
    vstd::seq_lib::seq_to_set_is_finite(voices);
    vstd::seq_lib::seq_to_set_is_finite(names);
    assert forall|m: Seq<char>| voices.to_set().contains(m) implies names.to_set().contains(m) by {
        lemma_signed(identities, bytes, sigs, m);
        let (i, k) = choose|i: int, k: int|
            0 <= i < sigs.len() && 0 <= k < identities.len() && (#[trigger] sigs[i]).member == m
                && (#[trigger] identities[k]).member == m && identity::verifies(
                identities[k].identity_pk,
                bytes,
                sigs[i].sig,
            ) && forall|j: int| 0 <= j < k ==> (#[trigger] identities[j]).member != m;
        assert(names[k] == m);
    }
    vstd::set_lib::lemma_len_subset(voices.to_set(), names.to_set());
    if voices.len() == identities.len() {
        vstd::set_lib::lemma_subset_equality(voices.to_set(), names.to_set());
        names.lemma_no_dup_set_cardinality();
        assert forall|i: int, j: int| 0 <= i < j < identities.len() implies (
        #[trigger] identities[i]).member != (#[trigger] identities[j]).member by {
            assert(names[i] == identities[i].member && names[j] == identities[j].member);
        }
        assert forall|i: int| 0 <= i < identities.len() implies signed(
            identities,
            bytes,
            sigs,
            (#[trigger] identities[i]).member,
        ) by {
            assert(names[i] == identities[i].member);
            assert(names.to_set().contains(names[i]));
            assert(voices.to_set().contains(names[i]));
            lemma_signed(identities, bytes, sigs, identities[i].member);
        }
    }
    if (forall|i: int, j: int|
        0 <= i < j < identities.len() ==> (#[trigger] identities[i]).member != (
        #[trigger] identities[j]).member) && (forall|i: int|
        0 <= i < identities.len() ==> signed(
            identities,
            bytes,
            sigs,
            (#[trigger] identities[i]).member,
        )) {
        assert forall|i: int, j: int| 0 <= i < j < names.len() implies names[i] != names[j] by {
            assert(identities[i].member != identities[j].member);
        }
        assert(names.no_duplicates());
        names.unique_seq_to_set();
        assert forall|m: Seq<char>| names.to_set().contains(m) implies voices.to_set().contains(
            m,
        ) by {
            let i = choose|i: int| 0 <= i < names.len() && names[i] == m;
            assert(identities[i].member == m);
            lemma_signed(identities, bytes, sigs, m);
        }
        vstd::set_lib::lemma_len_subset(names.to_set(), voices.to_set());
    }
}

/// A summary roots a chain exactly where its anchor is a cut right above what
/// it covers, signed over its own hash by the threshold of its roster, every
/// seat of which is a founding seat, and its founding recomputes to the
/// republic that is expected.
pub proof fn a_summary_roots_only_what_was_signed(
    blob: SummaryV,
    anchor: BlockV,
    expected: Seq<char>,
)
    ensures
        walk::anchor_fault(blob, anchor, expected) is None <==> (
        anchor.change matches ChangeV::Checkpoint { upto, state_hash } && {
            &&& blob.upto == upto
            &&& state_hash == identity::hash_text(canonical::checkpoint_bytes_of(blob))
            &&& anchor.height == upto + 1
            &&& blob.republic_id == expected
            &&& expected == identity::republic_id_of(
                blob.founding_name,
                blob.rule_m,
                blob.rule_n,
                blob.founding_identities,
            )
            &&& 0 < blob.rule_m <= blob.rule_n
            &&& blob.roster.len() > 0
            &&& blob.rule_n == blob.founding_identities.len()
            &&& forall|i: int|
                0 <= i < blob.roster.len() ==> blob.founding_identities.contains(
                    #[trigger] blob.roster[i],
                )
            &&& signers::signers_of(
                blob.roster,
                canonical::approval_bytes_of(expected, anchor.height, anchor.change),
                anchor.sigs,
            ).len() >= blob.rule_m
        }),
{
    lemma_unanchored(blob.roster, blob.founding_identities);
}

/// No entry is out of place where every entry is a founding one.
proof fn lemma_unanchored(roster: Seq<IdentityV>, founding: Seq<IdentityV>)
    ensures
        walk::unanchored(roster, founding) is None <==> forall|i: int|
            0 <= i < roster.len() ==> founding.contains(#[trigger] roster[i]),
    decreases roster.len(),
{
    if roster.len() > 0 {
        let rest = roster.skip(1);
        lemma_unanchored(rest, founding);
        if walk::unanchored(rest, founding) is None {
            assert forall|i: int| 0 <= i < roster.len() && founding.contains(
                roster[0],
            ) implies founding.contains(#[trigger] roster[i]) by {
                if i > 0 {
                    assert(rest[i - 1] == roster[i]);
                }
            }
        } else {
            let i = choose|i: int| 0 <= i < rest.len() && !founding.contains(#[trigger] rest[i]);
            assert(roster[i + 1] == rest[i]);
        }
    }
}

/// A chain under a summary starts from the summary: its head is the anchor,
/// over the summary's roster, the ids that the summary consumed are seen, and
/// the state goes on from the summary's.
pub proof fn a_rooted_chain_starts_from_its_summary(
    blob: SummaryV,
    anchor: BlockV,
    expected: Seq<char>,
)
    requires
        walk::anchor_fault(blob, anchor, expected) is None,
    ensures
        walk::walked_suffix(blob, seq![anchor], expected) matches Ok(w) && {
            &&& w.head.height == anchor.height
            &&& w.head.hash == identity::hash_text(
                canonical::block_link_bytes_of(expected, anchor),
            )
            &&& w.head.republic_id == expected
            &&& w.head.rule_m == blob.rule_m
            &&& w.head.identities == blob.roster
            &&& w.running == blob
            &&& w.floor == Some(blob.upto)
            &&& forall|id: u64| #[trigger] w.seen.contains(id) <==> blob.consumed_ids.contains(id)
        },
{
    assert(seq![anchor].skip(1) =~= Seq::empty());
}

/// Served material that is believed is of the republic that was expected, and
/// the constitution it gives is the one its founding, or its summary, states.
pub proof fn served_material_is_of_the_expected_republic(
    checkpoint: Option<SummaryV>,
    blocks: Seq<BlockV>,
    expected: Option<Seq<char>>,
)
    ensures
        walk::served(checkpoint, blocks, expected) matches Ok((head, sealed)) ==> {
            &&& blocks.len() > 0
            &&& expected matches Some(rid) ==> sealed.republic_id == rid
            &&& match checkpoint {
                None => blocks[0].change matches ChangeV::Genesis {
                    name,
                    republic_id,
                    rule_m,
                    rule_n,
                    identities,
                    agenda,
                    features,
                    relays,
                } && {
                    &&& walk::walked(blocks) is Ok
                    &&& head == walk::walked(blocks)->Ok_0.head
                    &&& sealed.name == name
                    &&& sealed.republic_id == republic_id
                    &&& sealed.rule_m == rule_m
                    &&& sealed.rule_n == rule_n
                    &&& sealed.identities == identities
                    &&& sealed.agenda == agenda
                    &&& sealed.features == features
                    &&& sealed.relays == relays
                    &&& sealed.attestations == blocks[0].sigs
                },
                Some(blob) => {
                    &&& walk::anchor_fault(
                        blob,
                        blocks[0],
                        match expected {
                            Some(rid) => rid,
                            None => blob.republic_id,
                        },
                    ) is None
                    &&& sealed.name == blob.founding_name
                    &&& sealed.republic_id == blob.republic_id
                    &&& sealed.rule_m == blob.rule_m
                    &&& sealed.rule_n == blob.rule_n
                    &&& sealed.identities == blob.founding_identities
                    &&& sealed.agenda == blob.agenda
                    &&& sealed.features == blob.founding_features
                    &&& sealed.relays == blob.relays
                    &&& sealed.attestations.len() == 0
                },
            }
        },
{
    match checkpoint {
        None => {
            if walk::walked(blocks) is Ok {
                lemma_head_republic(blocks);
            }
        },
        Some(blob) => {},
    }
}

/// The head of a verified chain is of the republic that its founding names.
proof fn lemma_head_republic(blocks: Seq<BlockV>)
    requires
        walk::walked(blocks) is Ok,
    ensures
        blocks.len() > 0,
        blocks[0].change is Genesis,
        walk::walked(blocks)->Ok_0.head.republic_id == blocks[0].change->Genesis_republic_id,
    decreases blocks.len(),
{
    if blocks.len() == 1 {
        assert(blocks.skip(1) =~= Seq::empty());
    } else {
        let front = blocks.drop_last();
        assert(blocks =~= front.push(blocks.last()));
        crate::chain_laws::extending_equals_walking_again(front, blocks.last());
        lemma_head_republic(front);
        crate::chain_laws::lemma_step_facts(walk::walked(front)->Ok_0, blocks.last());
        assert(front[0] == blocks[0]);
    }
}

/// Each kind of bytes that is signed or hashed begins with a tag of its own.
pub proof fn every_kind_of_bytes_has_its_tag(
    rid: Seq<char>,
    height: u64,
    change: ChangeV,
    block: BlockV,
    state: SummaryV,
    a: Seq<char>,
    b: Seq<char>,
    c: Seq<char>,
    relays: Seq<Seq<char>>,
    m: u8,
    n: u8,
    identities: Seq<IdentityV>,
)
    ensures
        change is Genesis ==> vstd::utf8::encode_utf8("molt-roster-v5\0"@).is_prefix_of(
            canonical::approval_bytes_of(rid, height, change),
        ),
        !(change is Genesis) ==> vstd::utf8::encode_utf8("molt-chain-approval-v1\0"@).is_prefix_of(
            canonical::approval_bytes_of(rid, height, change),
        ),
        vstd::utf8::encode_utf8("molt-chain-block-v1\0"@).is_prefix_of(canonical::block_link_bytes_of(rid, block)),
        vstd::utf8::encode_utf8("molt-restore-consent-v1\0"@).is_prefix_of(
            canonical::restore_consent_bytes_of(rid, a, b, c),
        ),
        vstd::utf8::encode_utf8("molt-seat-proof-v1\0"@).is_prefix_of(
            canonical::seat_proof_bytes_of(a, b, rid, c, relays),
        ),
        vstd::utf8::encode_utf8("molt-chain-checkpoint-v6\0"@).is_prefix_of(canonical::checkpoint_bytes_of(state)),
        vstd::utf8::encode_utf8("molt-republic-id-v2\0"@).is_prefix_of(
            canonical::founding_bytes_of(a, m, n, identities),
        ),
{
    reveal(canonical::approval_bytes_of);
    reveal(canonical::roster_bytes_of);
    reveal(canonical::block_link_bytes_of);
    reveal(canonical::restore_consent_bytes_of);
    reveal(canonical::seat_proof_bytes_of);
    reveal(canonical::checkpoint_bytes_of);
    reveal(canonical::founding_bytes_of);
}

/// A refused block is refused for a reason that holds of it, and the reason
/// names what it is about.
pub proof fn a_block_is_refused_for_what_is_wrong_with_it(w: WalkV, block: BlockV)
    requires
        w.running.roster == w.head.identities,
    ensures
        walk::stepped(w, block) matches Err(e) ==> match e {
            FaultV::HeightGap { height, head } => height == block.height && head == w.head.height
                && height != head + 1,
            FaultV::BrokenLink { height } => height == block.height && block.prev != w.head.hash,
            FaultV::LateGenesis => block.change is Genesis,
            FaultV::AppliedTwice { id } => block.change is Applied
                && block.change->Applied_proposal_id == id && w.seen.contains(id),
            FaultV::CheckpointHeight { upto, height } => block.change is Checkpoint
                && block.change->Checkpoint_upto == upto && height == block.height && upto + 1
                != height,
            FaultV::ConsentOnNonRestore { height } => height == block.height
                && block.change is Membership && block.change->Membership_op
                != MembershipOp::Restored && block.change->Membership_consent is Some,
            FaultV::CountedTwice { height, member } => height == block.height
                && block.change is Membership && member == block.change->Membership_member
                && signed(
                w.head.identities,
                canonical::approval_bytes_of(w.head.republic_id, block.height, block.change),
                block.sigs,
                member,
            ),
            FaultV::RestoresUnknown { height } => height == block.height
                && block.change is Membership && signers::seat_of(
                w.head.identities,
                block.change->Membership_member,
            ) is None,
            FaultV::ConsentInvalid { height, member } => height == block.height
                && block.change is Membership && member == block.change->Membership_member
                && block.change->Membership_consent is Some,
            FaultV::BelowThreshold { height, have, need } => height == block.height && need
                == w.head.rule_m && signers::backers_of(
                w.head.republic_id,
                w.head.identities,
                block,
            ) is Ok && signers::backers_of(
                w.head.republic_id,
                w.head.identities,
                block,
            )->Ok_0.len() < need,
            FaultV::JoinedUnsupported => block.change is Membership && block.change->Membership_op
                == MembershipOp::Joined,
            FaultV::UnknownSeat { member } => block.change is Membership && member
                == block.change->Membership_member && signers::seat_of(
                w.head.identities,
                member,
            ) is None,
            FaultV::SeatKeyMoved { member } => block.change is Membership && member
                == block.change->Membership_member && !export_laws::seated(
                w.head.identities,
                member,
                block.change->Membership_identity_pk,
            ),
            FaultV::BelowCoverage { upto, floor } => block.change is Checkpoint && upto
                == block.change->Checkpoint_upto && w.floor == Some(floor) && upto < floor,
            FaultV::StateMismatch { upto } => block.change is Checkpoint && upto
                == block.change->Checkpoint_upto,
            _ => false,
        },
{
    reveal(walk::stepped);
    reveal(signers::next_head);
    let bytes = canonical::approval_bytes_of(w.head.republic_id, block.height, block.change);
    match block.change {
        ChangeV::Membership { op, member, identity_pk, .. } => {
            lemma_signed(w.head.identities, bytes, block.sigs, member);
            export_laws::a_restore_needs_its_own_seat(
                w.head.identities,
                op,
                member,
                identity_pk,
            );
        },
        _ => {},
    }
}

} // verus!
