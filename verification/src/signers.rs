//! Who stands behind a block: the signatures that count, the founding seal,
//! and the check of one block against the head it follows.

use crate::canonical;
use crate::canonical::{approval_bytes, block_link_bytes, restore_consent_bytes, GENESIS_PREV};
use crate::fault::{Fault, FaultV};
use crate::identity;
use crate::identity::{content_hash, identity_verify, republic_id};
use crate::model::{
    AttestationV, BlockV, ChainBlock, ChainChange, ChangeV, IdentityV, MemberIdentity,
    MembershipOp, RosterAttestation,
};
use crate::text;
use crate::text::{add_name, has_name, same_text};
use std::collections::BTreeSet;
use vstd::prelude::*;
use vstd::string::*;

verus! {

/// The verified head of a chain plus the roster it establishes: everything a
/// caller needs to check the next block or to trust a synced chain.
#[derive(Debug, PartialEq, Eq)]
pub struct ChainHead {
    /// Height of the last verified block.
    pub height: u64,
    /// [`block_hash`] of the last verified block: the `prev` the next block
    /// must carry.
    pub hash: String,
    /// The content-derived republic id, fixed by the genesis.
    pub republic_id: String,
    /// Approval threshold (m) for every block after the genesis.
    pub rule_m: u8,
    /// The live roster after all membership blocks.
    pub identities: Vec<MemberIdentity>,
}

/// The model of [`ChainHead`].
pub struct HeadV {
    pub height: u64,
    pub hash: Seq<char>,
    pub republic_id: Seq<char>,
    pub rule_m: u8,
    pub identities: Seq<IdentityV>,
}

impl DeepView for ChainHead {
    type V = HeadV;

    open spec fn deep_view(&self) -> HeadV {
        HeadV {
            height: self.height,
            hash: self.hash@,
            republic_id: self.republic_id@,
            rule_m: self.rule_m,
            identities: self.identities.deep_view(),
        }
    }
}

impl Clone for ChainHead {
    fn clone(&self) -> (r: Self)
        ensures
            r.deep_view() == self.deep_view(),
    {
        ChainHead {
            height: self.height,
            hash: self.hash.clone(),
            republic_id: self.republic_id.clone(),
            rule_m: self.rule_m,
            identities: self.identities.clone(),
        }
    }
}

/// The hash that the next block's `prev` must carry.
pub open spec fn block_hash_of(republic_id: Seq<char>, block: BlockV) -> Seq<char> {
    identity::hash_text(canonical::block_link_bytes_of(republic_id, block))
}

/// The hash that the next block's `prev` must carry.
pub fn block_hash(republic_id: &str, block: &ChainBlock) -> (r: String)
    ensures
        r@ == block_hash_of(republic_id@, block.deep_view()),
{
    let bytes = block_link_bytes(republic_id, block);
    content_hash(bytes.as_slice())
}

/// The first seat of that name.
pub open spec fn seat_of(identities: Seq<IdentityV>, member: Seq<char>) -> Option<IdentityV>
    decreases identities.len(),
{
    if identities.len() == 0 {
        None
    } else if identities[0].member == member {
        Some(identities[0])
    } else {
        seat_of(identities.skip(1), member)
    }
}

/// The first seat of that name.
pub fn find_seat<'a>(identities: &'a Vec<MemberIdentity>, member: &str) -> (r: Option<
    &'a MemberIdentity,
>)
    ensures
        match r {
            Some(id) => seat_of(identities.deep_view(), member@) == Some(id.deep_view()),
            None => seat_of(identities.deep_view(), member@) is None,
        },
{
    let ghost all = identities.deep_view();
    let mut i: usize = 0;
    assert(all.skip(0) =~= all);
    while i < identities.len()
        invariant
            i <= identities.len(),
            all == identities.deep_view(),
            seat_of(all, member@) == seat_of(all.skip(i as int), member@),
        decreases identities.len() - i,
    {
        assert(all.skip(i as int)[0] == identities@[i as int].deep_view());
        if same_text(identities[i].member.as_str(), member) {
            return Some(&identities[i]);
        }
        assert(all.skip(i as int).skip(1) =~= all.skip(i + 1));
        i = i + 1;
    }
    None
}

/// The names of the seats, in order.
pub open spec fn seat_names_of(identities: Seq<IdentityV>) -> Seq<Seq<char>> {
    Seq::new(identities.len(), |i: int| identities[i].member)
}

/// The names of the seats, in order.
pub fn seat_names(identities: &Vec<MemberIdentity>) -> (r: Vec<String>)
    ensures
        r.deep_view() == seat_names_of(identities.deep_view()),
{
    let ghost ids = identities.deep_view();
    let mut out: Vec<String> = Vec::new();
    let mut i: usize = 0;
    while i < identities.len()
        invariant
            i <= identities.len(),
            ids == identities.deep_view(),
            out.len() == i,
            forall|k: int| 0 <= k < i ==> (#[trigger] out.deep_view()[k]) == ids[k].member,
        decreases identities.len() - i,
    {
        let ghost done = out.deep_view();
        out.push(identities[i].member.clone());
        assert(out.deep_view() =~= done.push(ids[i as int].member));
        i = i + 1;
    }
    assert(out.deep_view() =~= seat_names_of(ids));
    out
}

/// Does this attestation prove that a seat of the roster signed `bytes`?
pub open spec fn attests(identities: Seq<IdentityV>, bytes: Seq<u8>, att: AttestationV) -> bool {
    match seat_of(identities, att.member) {
        Some(seat) => identity::verifies(seat.identity_pk, bytes, att.sig),
        None => false,
    }
}

/// The distinct members of the roster who validly signed `bytes`, ascending.
pub open spec fn signers_of(
    identities: Seq<IdentityV>,
    bytes: Seq<u8>,
    sigs: Seq<AttestationV>,
) -> Seq<Seq<char>>
    decreases sigs.len(),
{
    if sigs.len() == 0 {
        Seq::empty()
    } else {
        let rest = signers_of(identities, bytes, sigs.drop_last());
        if attests(identities, bytes, sigs.last()) {
            text::insert_name(rest, sigs.last().member)
        } else {
            rest
        }
    }
}

/// The signers are exactly the members with a valid attestation, each once:
/// an unknown member, a bad signature or a repeated one never counts.
pub proof fn signers_are_distinct_attesting_members(
    identities: Seq<IdentityV>,
    bytes: Seq<u8>,
    sigs: Seq<AttestationV>,
)
    ensures
        text::ascending(signers_of(identities, bytes, sigs)),
        signers_of(identities, bytes, sigs).no_duplicates(),
        forall|m: Seq<char>| #[trigger]
            signers_of(identities, bytes, sigs).contains(m) <==> exists|i: int|
                0 <= i < sigs.len() && #[trigger] sigs[i].member == m && attests(
                    identities,
                    bytes,
                    sigs[i],
                ),
    decreases sigs.len(),
{
    let all = signers_of(identities, bytes, sigs);
    if sigs.len() > 0 {
        let front = sigs.drop_last();
        signers_are_distinct_attesting_members(identities, bytes, front);
        let rest = signers_of(identities, bytes, front);
        if attests(identities, bytes, sigs.last()) {
            text::lemma_insert_name(rest, sigs.last().member);
        }
        assert forall|m: Seq<char>| #[trigger] all.contains(m) <==> exists|i: int|
            0 <= i < sigs.len() && #[trigger] sigs[i].member == m && attests(
                identities,
                bytes,
                sigs[i],
            ) by {
            if all.contains(m) {
                if rest.contains(m) {
                    let i = choose|i: int|
                        0 <= i < front.len() && #[trigger] front[i].member == m && attests(
                            identities,
                            bytes,
                            front[i],
                        );
                    assert(sigs[i] == front[i]);
                } else {
                    assert(sigs[sigs.len() - 1].member == m);
                }
            }
            if exists|i: int|
                0 <= i < sigs.len() && #[trigger] sigs[i].member == m && attests(
                    identities,
                    bytes,
                    sigs[i],
                ) {
                let i = choose|i: int|
                    0 <= i < sigs.len() && #[trigger] sigs[i].member == m && attests(
                        identities,
                        bytes,
                        sigs[i],
                    );
                if i < front.len() {
                    assert(front[i].member == m);
                    assert(rest.contains(m));
                }
            }
        }
    }
    assert forall|i: int, j: int| 0 <= i < all.len() && 0 <= j < all.len() && i != j implies all[i]
        != all[j] by {
        if i < j {
            assert(text::before(all[i], all[j]));
        } else {
            assert(text::before(all[j], all[i]));
        }
        text::lemma_before_irreflexive(all[i]);
    }
}

/// The distinct members of the roster who validly signed `bytes`, ascending.
pub fn valid_signers(
    identities: &Vec<MemberIdentity>,
    bytes: &Vec<u8>,
    sigs: &Vec<RosterAttestation>,
) -> (r: Vec<String>)
    ensures
        r.deep_view() == signers_of(identities.deep_view(), bytes@, sigs.deep_view()),
{
    let ghost ids = identities.deep_view();
    let ghost all = sigs.deep_view();
    let mut ok: Vec<String> = Vec::new();
    let mut i: usize = 0;
    assert(all.take(0) =~= Seq::empty());
    assert(ok.deep_view() =~= Seq::empty());
    while i < sigs.len()
        invariant
            i <= sigs.len(),
            ids == identities.deep_view(),
            all == sigs.deep_view(),
            ok.deep_view() == signers_of(ids, bytes@, all.take(i as int)),
        decreases sigs.len() - i,
    {
        let att = &sigs[i];
        proof {
            assert(all.take(i + 1).drop_last() =~= all.take(i as int));
            assert(all.take(i + 1).last() == att.deep_view());
        }
        match find_seat(identities, att.member.as_str()) {
            Some(id) => {
                if identity_verify(id.identity_pk.as_str(), bytes.as_slice(), att.sig.as_str()) {
                    add_name(&mut ok, &att.member);
                }
            },
            None => {},
        }
        i = i + 1;
    }
    assert(all.take(i as int) =~= all);
    ok
}

/// Why a membership change cannot follow this roster, if it cannot.
pub open spec fn membership_fault(
    identities: Seq<IdentityV>,
    op: MembershipOp,
    member: Seq<char>,
    identity_pk: Seq<char>,
) -> Option<FaultV> {
    match op {
        MembershipOp::Joined => Some(FaultV::JoinedUnsupported),
        MembershipOp::Restored => match seat_of(identities, member) {
            None => Some(FaultV::UnknownSeat { member }),
            Some(seat) => if seat.identity_pk != identity_pk {
                Some(FaultV::SeatKeyMoved { member })
            } else {
                None
            },
        },
    }
}

/// Evolves the roster for the blocks that follow a membership change. Seats
/// are fixed at founding and a restored seat keeps its identity key, so an
/// accepted change leaves the roster as it is.
pub fn apply_membership(
    identities: &mut Vec<MemberIdentity>,
    op: MembershipOp,
    member: &str,
    identity_pk: &str,
) -> (r: Result<(), Fault>)
    ensures
        *final(identities) == *old(identities),
        match r {
            Ok(()) => membership_fault(old(identities).deep_view(), op, member@, identity_pk@) is None,
            Err(e) => membership_fault(old(identities).deep_view(), op, member@, identity_pk@) == Some(
                e.deep_view(),
            ),
        },
{
    match op {
        MembershipOp::Joined => Err(Fault::JoinedUnsupported),
        MembershipOp::Restored => match find_seat(identities, member) {
            None => Err(Fault::UnknownSeat { member: member.to_owned() }),
            Some(seat) => {
                if !same_text(seat.identity_pk.as_str(), identity_pk) {
                    Err(Fault::SeatKeyMoved { member: member.to_owned() })
                } else {
                    Ok(())
                }
            },
        },
    }
}

/// The head that a first block founds.
pub open spec fn founded_head(block: BlockV) -> Result<HeadV, FaultV> {
    if block.height != 0 {
        Err(FaultV::NotHeightZero)
    } else if block.prev != GENESIS_PREV@ {
        Err(FaultV::NotZeroRoot)
    } else {
        match block.change {
            ChangeV::Genesis { name, republic_id, rule_m, rule_n, identities, .. } => {
                if rule_m == 0 || rule_m > rule_n {
                    Err(FaultV::ThresholdOutOfRange)
                } else if rule_n != identities.len() {
                    Err(FaultV::RosterSize)
                } else if identity::republic_id_of(name, rule_m, rule_n, identities)
                    != republic_id {
                    Err(FaultV::IdMismatch)
                } else if signers_of(
                    identities,
                    canonical::approval_bytes_of(republic_id, 0, block.change),
                    block.sigs,
                ).len() != identities.len() {
                    Err(FaultV::NotFullySigned)
                } else {
                    Ok(
                        HeadV {
                            height: 0,
                            hash: block_hash_of(republic_id, block),
                            republic_id,
                            rule_m,
                            identities,
                        },
                    )
                }
            },
            _ => Err(FaultV::NotGenesis),
        }
    }
}

/// Verifies block 0: a genesis whose republic id is derived from its content,
/// sealed by every anchored member.
pub fn verify_genesis(block: &ChainBlock) -> (r: Result<ChainHead, Fault>)
    ensures
        match r {
            Ok(h) => founded_head(block.deep_view()) == Ok::<HeadV, FaultV>(h.deep_view()),
            Err(e) => founded_head(block.deep_view()) == Err::<HeadV, FaultV>(e.deep_view()),
        },
{
    if block.height != 0 {
        return Err(Fault::NotHeightZero);
    }
    if !same_text(block.prev.as_str(), GENESIS_PREV) {
        return Err(Fault::NotZeroRoot);
    }
    match &block.change {
        ChainChange::Genesis {
            name,
            republic_id: claimed,
            rule_m,
            rule_n,
            identities,
            agenda: _,
            features: _,
            relays: _,
        } => {
            if *rule_m == 0 || *rule_m > *rule_n {
                return Err(Fault::ThresholdOutOfRange);
            }
            if *rule_n as usize != identities.len() {
                return Err(Fault::RosterSize);
            }
            let rid = republic_id(name.as_str(), *rule_m, *rule_n, identities);
            if rid != *claimed {
                return Err(Fault::IdMismatch);
            }
            let bytes = approval_bytes(claimed.as_str(), 0, &block.change);
            let signers = valid_signers(identities, &bytes, &block.sigs);
            if signers.len() != identities.len() {
                return Err(Fault::NotFullySigned);
            }
            Ok(
                ChainHead {
                    height: 0,
                    hash: block_hash(claimed.as_str(), block),
                    republic_id: claimed.clone(),
                    rule_m: *rule_m,
                    identities: identities.clone(),
                },
            )
        },
        _ => Err(Fault::NotGenesis),
    }
}

/// The transport key that a membership change names; empty where it names none.
pub open spec fn key_or_empty(nostr_pk: Option<Seq<char>>) -> Seq<char> {
    match nostr_pk {
        Some(pk) => pk,
        None => Seq::empty(),
    }
}

/// The distinct members whose voices back one block: its signatures and, on a
/// restore, the returning seat's consent. A consent belongs to a restore
/// alone, must verify against the seat's anchored key, and its member must
/// not sign as well.
pub open spec fn backers_of(
    republic_id: Seq<char>,
    identities: Seq<IdentityV>,
    block: BlockV,
) -> Result<Seq<Seq<char>>, FaultV> {
    let signers = signers_of(
        identities,
        canonical::approval_bytes_of(republic_id, block.height, block.change),
        block.sigs,
    );
    match block.change {
        ChangeV::Membership { op, member, nostr_pk, consent: Some(consent), .. } => {
            if op != MembershipOp::Restored {
                Err(FaultV::ConsentOnNonRestore { height: block.height })
            } else if signers.contains(member) {
                Err(FaultV::CountedTwice { height: block.height, member })
            } else {
                match seat_of(identities, member) {
                    None => Err(FaultV::RestoresUnknown { height: block.height }),
                    Some(seat) => if !identity::verifies(
                        seat.identity_pk,
                        canonical::restore_consent_bytes_of(
                            republic_id,
                            member,
                            seat.identity_pk,
                            key_or_empty(nostr_pk),
                        ),
                        consent,
                    ) {
                        Err(FaultV::ConsentInvalid { height: block.height, member })
                    } else {
                        Ok(text::insert_name(signers, member))
                    },
                }
            }
        },
        _ => Ok(signers),
    }
}

/// The distinct members whose voices back one block against `identities`.
pub fn block_signers(
    republic_id: &str,
    identities: &Vec<MemberIdentity>,
    block: &ChainBlock,
) -> (r: Result<Vec<String>, Fault>)
    ensures
        match r {
            Ok(names) => backers_of(republic_id@, identities.deep_view(), block.deep_view()) == Ok::<
                Seq<Seq<char>>,
                FaultV,
            >(names.deep_view()),
            Err(e) => backers_of(republic_id@, identities.deep_view(), block.deep_view()) == Err::<
                Seq<Seq<char>>,
                FaultV,
            >(e.deep_view()),
        },
{
    let bytes = approval_bytes(republic_id, block.height, &block.change);
    let mut signers = valid_signers(identities, &bytes, &block.sigs);
    match &block.change {
        ChainChange::Membership {
            op,
            member,
            identity_pk: _,
            nostr_pk,
            relays: _,
            consent: Some(consent),
        } => {
            if *op != MembershipOp::Restored {
                return Err(Fault::ConsentOnNonRestore { height: block.height });
            }
            if has_name(&signers, member.as_str()) {
                return Err(Fault::CountedTwice { height: block.height, member: member.clone() });
            }
            match find_seat(identities, member.as_str()) {
                None => Err(Fault::RestoresUnknown { height: block.height }),
                Some(seat) => {
                    let transport: String = match nostr_pk {
                        Some(pk) => pk.clone(),
                        None => String::new(),
                    };
                    let consented = restore_consent_bytes(
                        republic_id,
                        member.as_str(),
                        seat.identity_pk.as_str(),
                        transport.as_str(),
                    );
                    if !identity_verify(
                        seat.identity_pk.as_str(),
                        consented.as_slice(),
                        consent.as_str(),
                    ) {
                        return Err(
                            Fault::ConsentInvalid { height: block.height, member: member.clone() },
                        );
                    }
                    add_name(&mut signers, member);
                    Ok(signers)
                },
            }
        },
        _ => Ok(signers),
    }
}

/// Why a block's place or its change cannot follow the head, if it cannot.
pub open spec fn placement_fault(head: HeadV, block: BlockV, seen: Set<u64>) -> Option<FaultV> {
    if block.height != head.height + 1 {
        Some(FaultV::HeightGap { height: block.height, head: head.height })
    } else if block.prev != head.hash {
        Some(FaultV::BrokenLink { height: block.height })
    } else {
        match block.change {
            ChangeV::Genesis { .. } => Some(FaultV::LateGenesis),
            ChangeV::Applied { proposal_id, .. } => if seen.contains(proposal_id) {
                Some(FaultV::AppliedTwice { id: proposal_id })
            } else {
                None
            },
            ChangeV::Membership { .. } => None,
            ChangeV::Checkpoint { upto, .. } => if upto != block.height - 1 {
                Some(FaultV::CheckpointHeight { upto, height: block.height })
            } else {
                None
            },
        }
    }
}

/// Why the roster cannot take a block's membership change, if it cannot.
pub open spec fn roster_fault(identities: Seq<IdentityV>, change: ChangeV) -> Option<FaultV> {
    match change {
        ChangeV::Membership { op, member, identity_pk, .. } => membership_fault(
            identities,
            op,
            member,
            identity_pk,
        ),
        _ => None,
    }
}

/// The proposal id that a change consumes.
pub open spec fn consumed_by(change: ChangeV) -> Option<u64> {
    match change {
        ChangeV::Applied { proposal_id, .. } => Some(proposal_id),
        _ => None,
    }
}

/// The head after a block, or why the block cannot follow: its place first,
/// then its voices, then the roster.
#[verifier::opaque]
pub open spec fn next_head(head: HeadV, block: BlockV, seen: Set<u64>) -> Result<HeadV, FaultV> {
    match placement_fault(head, block, seen) {
        Some(e) => Err(e),
        None => match backers_of(head.republic_id, head.identities, block) {
            Err(e) => Err(e),
            Ok(names) => if names.len() < head.rule_m {
                Err(
                    FaultV::BelowThreshold {
                        height: block.height,
                        have: names.len() as u64,
                        need: head.rule_m,
                    },
                )
            } else {
                match roster_fault(head.identities, block.change) {
                    Some(e) => Err(e),
                    None => Ok(
                        HeadV {
                            height: block.height,
                            hash: block_hash_of(head.republic_id, block),
                            republic_id: head.republic_id,
                            rule_m: head.rule_m,
                            identities: head.identities,
                        },
                    ),
                }
            },
        },
    }
}

/// Verifies one block against the current head. Returns the advanced head
/// and, for a gated change, the proposal id that it consumes. What was seen
/// before is only read: a refused block leaves no trace.
pub fn verify_next(head: &ChainHead, block: &ChainBlock, seen_proposals: &BTreeSet<u64>) -> (r:
    Result<(ChainHead, Option<u64>), Fault>)
    ensures
        match r {
            Ok(p) => {
                &&& next_head(head.deep_view(), block.deep_view(), seen_proposals@) == Ok::<
                    HeadV,
                    FaultV,
                >(p.0.deep_view())
                &&& p.1 == consumed_by(block.deep_view().change)
            },
            Err(e) => next_head(head.deep_view(), block.deep_view(), seen_proposals@) == Err::<
                HeadV,
                FaultV,
            >(e.deep_view()),
        },
{
    broadcast use vstd::std_specs::btree::group_btree_axioms;

    proof {
        reveal(next_head);
    }
    if head.height == u64::MAX || block.height != head.height + 1 {
        return Err(Fault::HeightGap { height: block.height, head: head.height });
    }
    if block.prev != head.hash {
        return Err(Fault::BrokenLink { height: block.height });
    }
    let mut consumed: Option<u64> = None;
    match &block.change {
        ChainChange::Genesis { .. } => {
            return Err(Fault::LateGenesis);
        },
        ChainChange::Applied { proposal_id, .. } => {
            if seen_proposals.contains(proposal_id) {
                return Err(Fault::AppliedTwice { id: *proposal_id });
            }
            consumed = Some(*proposal_id);
        },
        ChainChange::Membership { .. } => {},
        ChainChange::Checkpoint { upto, .. } => {
            if *upto != block.height - 1 {
                return Err(Fault::CheckpointHeight { upto: *upto, height: block.height });
            }
        },
    }
    let signers = match block_signers(head.republic_id.as_str(), &head.identities, block) {
        Ok(names) => names,
        Err(e) => {
            return Err(e);
        },
    };
    if signers.len() < head.rule_m as usize {
        return Err(
            Fault::BelowThreshold {
                height: block.height,
                have: signers.len() as u64,
                need: head.rule_m,
            },
        );
    }
    let mut identities = head.identities.clone();
    match &block.change {
        ChainChange::Membership { op, member, identity_pk, .. } => {
            match apply_membership(&mut identities, *op, member.as_str(), identity_pk.as_str()) {
                Ok(()) => {},
                Err(e) => {
                    return Err(e);
                },
            }
        },
        _ => {},
    }
    Ok(
        (
            ChainHead {
                height: block.height,
                hash: block_hash(head.republic_id.as_str(), block),
                republic_id: head.republic_id.clone(),
                rule_m: head.rule_m,
                identities,
            },
            consumed,
        ),
    )
}

} // verus!
