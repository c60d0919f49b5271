//! What holds of a sealed block: it carries the threshold, and it is counted
//! as every verifier counts it.

use crate::canonical;
use crate::identity;
use crate::model::{AttestationV, ChangeV, IdentityV, MembershipOp};
use crate::signers;
use crate::state::StateV;
use crate::state_laws;
use crate::table;
use crate::text;
use crate::votes;
use vstd::prelude::*;

verus! {

/// Does every name have one seat?
pub open spec fn distinct_seats(identities: Seq<IdentityV>) -> bool {
    forall|i: int, j: int|
        0 <= i < j < identities.len() ==> (#[trigger] identities[i]).member != (
        #[trigger] identities[j]).member
}

/// The seat of a name, where every name has one seat.
proof fn lemma_the_seat(identities: Seq<IdentityV>, i: int)
    requires
        distinct_seats(identities),
        0 <= i < identities.len(),
    ensures
        signers::seat_of(identities, identities[i].member) == Some(identities[i]),
    decreases identities.len(),
{
    if i > 0 {
        assert(identities[0].member != identities[i].member);
        let rest = identities.skip(1);
        assert forall|a: int, b: int| 0 <= a < b < rest.len() implies (#[trigger] rest[a]).member
            != (#[trigger] rest[b]).member by {
            assert(rest[a] == identities[a + 1] && rest[b] == identities[b + 1]);
        }
        lemma_the_seat(rest, i - 1);
        assert(rest[i - 1] == identities[i]);
    }
}

/// Where every name has one seat, what a seat vouches for it attests.
proof fn lemma_vouched_attests(identities: Seq<IdentityV>, bytes: Seq<u8>, att: AttestationV)
    requires
        distinct_seats(identities),
        votes::vouched(identities, bytes, att.member, att.sig),
    ensures
        signers::attests(identities, bytes, att),
{
    let i = choose|i: int|
        0 <= i < identities.len() && (#[trigger] identities[i]).member == att.member
            && identity::verifies(identities[i].identity_pk, bytes, att.sig);
    lemma_the_seat(identities, i);
}

/// Leaving a member's votes out keeps the order, and leaves no vote of that
/// member.
proof fn lemma_sigs_without(sigs: Seq<AttestationV>, member: Seq<char>)
    ensures
        state_laws::by_name(sigs) ==> state_laws::by_name(votes::sigs_without(sigs, member)),
        forall|v: AttestationV|
            #[trigger] votes::sigs_without(sigs, member).contains(v) ==> sigs.contains(v) && v.member
                != member,
    decreases sigs.len(),
{
    if sigs.len() > 0 {
        let front = sigs.drop_last();
        let rest = votes::sigs_without(front, member);
        let out = votes::sigs_without(sigs, member);
        lemma_sigs_without(front, member);
        assert(sigs[sigs.len() - 1] == sigs.last());
        if state_laws::by_name(sigs) {
            assert forall|i: int, j: int| 0 <= i < j < front.len() implies text::before(
                (#[trigger] front[i]).member,
                (#[trigger] front[j]).member,
            ) by {
                assert(front[i] == sigs[i] && front[j] == sigs[j]);
            }
            assert forall|i: int, j: int| 0 <= i < j < out.len() implies text::before(
                (#[trigger] out[i]).member,
                (#[trigger] out[j]).member,
            ) by {
                assert(out[i] == rest[i]);
                if j < rest.len() {
                    assert(out[j] == rest[j]);
                } else {
                    assert(rest.contains(rest[i]));
                    let k = choose|k: int| 0 <= k < front.len() && front[k] == rest[i];
                    assert(sigs[k] == front[k]);
                    assert(text::before(sigs[k].member, sigs[sigs.len() - 1].member));
                }
            }
        }
        assert forall|v: AttestationV| #[trigger] out.contains(v) implies sigs.contains(v)
            && v.member != member by {
            let k = choose|k: int| 0 <= k < out.len() && out[k] == v;
            if k < rest.len() {
                assert(rest[k] == v);
                assert(rest.contains(v));
                let m = choose|m: int| 0 <= m < front.len() && front[m] == v;
                assert(sigs[m] == v);
            }
        }
    }
}

/// Votes in order of name that all attest are counted one by one.
proof fn lemma_signers_counted(identities: Seq<IdentityV>, bytes: Seq<u8>, sigs: Seq<AttestationV>)
    requires
        state_laws::by_name(sigs),
        forall|i: int| 0 <= i < sigs.len() ==> signers::attests(identities, bytes, #[trigger] sigs[i]),
    ensures
        signers::signers_of(identities, bytes, sigs) == Seq::new(
            sigs.len(),
            |i: int| sigs[i].member,
        ),
    decreases sigs.len(),
{
    let names = Seq::new(sigs.len(), |i: int| sigs[i].member);
    if sigs.len() == 0 {
        assert(names =~= Seq::empty());
    } else {
        let front = sigs.drop_last();
        assert forall|i: int, j: int| 0 <= i < j < front.len() implies text::before(
            (#[trigger] front[i]).member,
            (#[trigger] front[j]).member,
        ) by {
            assert(front[i] == sigs[i] && front[j] == sigs[j]);
        }
        assert forall|i: int| 0 <= i < front.len() implies signers::attests(
            identities,
            bytes,
            #[trigger] front[i],
        ) by {
            assert(front[i] == sigs[i]);
        }
        lemma_signers_counted(identities, bytes, front);
        let rest = Seq::new(front.len(), |i: int| front[i].member);
        assert(signers::attests(identities, bytes, sigs[sigs.len() - 1]));
        if front.len() > 0 {
            assert(rest.last() == sigs[sigs.len() - 2].member);
            assert(text::before(sigs[sigs.len() - 2].member, sigs[sigs.len() - 1].member));
            text::lemma_before_irreflexive(sigs.last().member);
            assert(text::insert_name(rest, sigs.last().member) == rest.push(sigs.last().member));
        } else {
            assert(rest =~= Seq::empty());
            assert(seq![sigs.last().member] =~= rest.push(sigs.last().member));
        }
        assert(names =~= rest.push(sigs.last().member));
    }
}

/// A block that is sealed stands right above the head, carries the change of
/// its proposal, and its voices reach the threshold: distinct members of the
/// roster, none of whom declines, and the consent of a returning seat.
pub proof fn a_sealed_block_carries_the_threshold(s: StateV, id: u64)
    requires
        s.sealable(id) is Some,
    ensures
        s.sealable(id)->0.height == s.height() + 1,
        s.sealable(id)->0.prev == s.head->0.hash,
        Some(s.sealable(id)->0.change) == s.change_for(id),
        state_laws::by_name(s.sealable(id)->0.sigs),
        forall|v: AttestationV|
            #[trigger] s.sealable(id)->0.sigs.contains(v) ==> state_laws::counts(
                s.head->0.identities,
                canonical::approval_bytes_of(
                    s.rid(),
                    s.sealable(id)->0.height,
                    s.sealable(id)->0.change,
                ),
                s.decliners_of(id),
                v,
            ),
        s.sealable(id)->0.sigs.len() + (if votes::consenting(s.sealable(id)->0.change) is Some {
            1int
        } else {
            0int
        }) >= s.head->0.rule_m,
        votes::consenting(s.sealable(id)->0.change) is Some ==> !votes::signed_by(
            s.sealable(id)->0.sigs,
            votes::consenting(s.sealable(id)->0.change)->0,
        ),
{
    let block = s.sealable(id)->0;
    let change = block.change;
    let p = table::get(s.pending_sigs, id)->0;
    let ids = s.head->0.identities;
    let bytes = canonical::approval_bytes_of(s.rid(), block.height, change);
    let no = s.decliners_of(id);
    let counted = votes::counted_votes(ids, bytes, no, p.sigs);
    state_laws::the_votes_that_count(ids, bytes, no, p.sigs);
    let others = match votes::consenting(change) {
        Some(member) => votes::sigs_without(counted, member),
        None => counted,
    };
    if votes::consenting(change) is Some {
        lemma_sigs_without(counted, votes::consenting(change)->0);
    }
    let sigs = block.sigs;
    assert forall|i: int| 0 <= i < sigs.len() implies #[trigger] sigs[i] == others[i] by {}
    assert forall|i: int, j: int| 0 <= i < j < sigs.len() implies text::before(
        (#[trigger] sigs[i]).member,
        (#[trigger] sigs[j]).member,
    ) by {
        assert(sigs[i] == others[i] && sigs[j] == others[j]);
    }
    assert forall|v: AttestationV| #[trigger] sigs.contains(v) implies others.contains(v)
        && counted.contains(v) by {
        let k = choose|k: int| 0 <= k < sigs.len() && sigs[k] == v;
        assert(others[k] == v);
        assert(others.contains(v));
    }
    if votes::consenting(change) is Some {
        let member = votes::consenting(change)->0;
        assert forall|k: int| 0 <= k < sigs.len() implies (#[trigger] sigs[k]).member != member by {
            assert(sigs.contains(sigs[k]));
            assert(others.contains(sigs[k]));
        }
    }
}

/// Does a consent that the change carries verify against the seat's key?
pub open spec fn consent_holds(s: StateV, change: ChangeV) -> bool {
    match change {
        ChangeV::Membership { op, member, nostr_pk, consent: Some(consent), .. } => {
            &&& op == MembershipOp::Restored
            &&& signers::seat_of(s.head->0.identities, member) is Some
            &&& identity::verifies(
                signers::seat_of(s.head->0.identities, member)->0.identity_pk,
                canonical::restore_consent_bytes_of(
                    s.rid(),
                    member,
                    signers::seat_of(s.head->0.identities, member)->0.identity_pk,
                    signers::key_or_empty(nostr_pk),
                ),
                consent,
            )
        },
        _ => true,
    }
}

/// A sealed block is counted by every verifier as it was counted here: its
/// backers reach the threshold. A consent that it carries must hold, as it
/// does where the change was registered after a check.
pub proof fn a_sealed_block_passes_the_count(s: StateV, id: u64)
    requires
        s.sealable(id) is Some,
        distinct_seats(s.head->0.identities),
        consent_holds(s, s.sealable(id)->0.change),
    ensures
        signers::backers_of(s.rid(), s.head->0.identities, s.sealable(id)->0) is Ok,
        signers::backers_of(s.rid(), s.head->0.identities, s.sealable(id)->0)->Ok_0.len()
            >= s.head->0.rule_m,
{
    a_sealed_block_carries_the_threshold(s, id);
    let block = s.sealable(id)->0;
    let ids = s.head->0.identities;
    let bytes = canonical::approval_bytes_of(s.rid(), block.height, block.change);
    assert forall|i: int| 0 <= i < block.sigs.len() implies signers::attests(
        ids,
        bytes,
        #[trigger] block.sigs[i],
    ) by {
        assert(block.sigs.contains(block.sigs[i]));
        lemma_vouched_attests(ids, bytes, block.sigs[i]);
    }
    lemma_signers_counted(ids, bytes, block.sigs);
    let names = signers::signers_of(ids, bytes, block.sigs);
    match votes::consenting(block.change) {
        Some(member) => {
            assert(!names.contains(member)) by {
                if names.contains(member) {
                    let k = choose|k: int| 0 <= k < names.len() && names[k] == member;
                    assert(block.sigs[k].member == member);
                }
            }
            signers::signers_are_distinct_attesting_members(ids, bytes, block.sigs);
            lemma_insert_grows(names, member);
        },
        None => {},
    }
}

/// A new name makes the list longer by one.
proof fn lemma_insert_grows(names: Seq<Seq<char>>, name: Seq<char>)
    requires
        !names.contains(name),
    ensures
        text::insert_name(names, name).len() == names.len() + 1,
    decreases names.len(),
{
    if names.len() > 0 {
        let front = names.drop_last();
        assert(names[names.len() - 1] == names.last());
        if front.contains(name) {
            let k = choose|k: int| 0 <= k < front.len() && front[k] == name;
            assert(names[k] == name);
        }
        lemma_insert_grows(front, name);
    }
}

} // verus!
