//! The votes in flight: what a proposal would enact, the signatures collected
//! for it, and the block that they seal.

use crate::identity;
use crate::identity::identity_verify;
use crate::model::{
    AttestationV, ChainChange, ChangeV, IdentityV, MemberIdentity, MembershipOp,
    RosterAttestation, Surface,
};
use crate::state::{ProposalRecord, RecordV};
use crate::text;
use crate::text::{has_name, same_text, text_before};
use vstd::prelude::*;
use vstd::string::*;

verus! {

/// The operation that a membership card wears.
pub open spec fn card_op(op: MembershipOp) -> Seq<char> {
    match op {
        MembershipOp::Restored => "restore_member"@,
        MembershipOp::Joined => "add_member"@,
    }
}

/// The operation that a membership card wears.
pub fn membership_card_op(op: MembershipOp) -> (r: &'static str)
    ensures
        r@ == card_op(op),
{
    match op {
        MembershipOp::Restored => "restore_member",
        MembershipOp::Joined => "add_member",
    }
}

/// Is this the card of that membership change?
pub open spec fn wears(card: RecordV, op: MembershipOp, member: Seq<char>) -> bool {
    &&& card.surface == Surface::Organization
    &&& card.payload.has_op(card_op(op))
    &&& card.payload.text("member"@) == Some(member)
}

/// Is this the card of that membership change?
pub fn wears_change(card: &ProposalRecord, op: MembershipOp, member: &str) -> (r: bool)
    ensures
        r == wears(card.deep_view(), op, member@),
{
    if card.surface != Surface::Organization || !card.payload.has_op(membership_card_op(op)) {
        return false;
    }
    match card.payload.text("member") {
        Some(m) => same_text(m.as_str(), member),
        None => false,
    }
}

/// Does some seat of that name vouch for `bytes` with this signature?
pub open spec fn vouched(
    identities: Seq<IdentityV>,
    bytes: Seq<u8>,
    member: Seq<char>,
    sig: Seq<char>,
) -> bool {
    exists|i: int|
        0 <= i < identities.len() && (#[trigger] identities[i]).member == member
            && identity::verifies(identities[i].identity_pk, bytes, sig)
}

/// Does some seat of that name vouch for `bytes` with this signature?
pub fn seat_vouches(
    identities: &Vec<MemberIdentity>,
    bytes: &Vec<u8>,
    member: &str,
    sig: &str,
) -> (r: bool)
    ensures
        r == vouched(identities.deep_view(), bytes@, member@, sig@),
{
    let ghost all = identities.deep_view();
    let mut i: usize = 0;
    while i < identities.len()
        invariant
            i <= identities.len(),
            all == identities.deep_view(),
            forall|k: int|
                0 <= k < i ==> !((#[trigger] all[k]).member == member@ && identity::verifies(
                    all[k].identity_pk,
                    bytes@,
                    sig@,
                )),
        decreases identities.len() - i,
    {
        assert(all[i as int] == identities@[i as int].deep_view());
        if same_text(identities[i].member.as_str(), member) {
            if identity_verify(identities[i].identity_pk.as_str(), bytes.as_slice(), sig) {
                return true;
            }
        }
        i = i + 1;
    }
    false
}

/// Is there a seat of that name?
pub open spec fn seated(identities: Seq<IdentityV>, member: Seq<char>) -> bool {
    exists|i: int| 0 <= i < identities.len() && (#[trigger] identities[i]).member == member
}

/// Is there a seat of that name?
pub fn is_seated(identities: &Vec<MemberIdentity>, member: &str) -> (r: bool)
    ensures
        r == seated(identities.deep_view(), member@),
{
    let ghost all = identities.deep_view();
    let mut i: usize = 0;
    while i < identities.len()
        invariant
            i <= identities.len(),
            all == identities.deep_view(),
            forall|k: int| 0 <= k < i ==> (#[trigger] all[k]).member != member@,
        decreases identities.len() - i,
    {
        assert(all[i as int] == identities@[i as int].deep_view());
        if same_text(identities[i].member.as_str(), member) {
            return true;
        }
        i = i + 1;
    }
    false
}

/// Did that member sign?
pub open spec fn signed_by(sigs: Seq<AttestationV>, member: Seq<char>) -> bool {
    exists|i: int| 0 <= i < sigs.len() && (#[trigger] sigs[i]).member == member
}

/// Did that member sign?
pub fn has_signed(sigs: &Vec<RosterAttestation>, member: &str) -> (r: bool)
    ensures
        r == signed_by(sigs.deep_view(), member@),
{
    let ghost all = sigs.deep_view();
    let mut i: usize = 0;
    while i < sigs.len()
        invariant
            i <= sigs.len(),
            all == sigs.deep_view(),
            forall|k: int| 0 <= k < i ==> (#[trigger] all[k]).member != member@,
        decreases sigs.len() - i,
    {
        assert(all[i as int] == sigs@[i as int].deep_view());
        if same_text(sigs[i].member.as_str(), member) {
            return true;
        }
        i = i + 1;
    }
    false
}

/// The signatures of everybody but that member.
pub open spec fn sigs_without(sigs: Seq<AttestationV>, member: Seq<char>) -> Seq<AttestationV>
    decreases sigs.len(),
{
    if sigs.len() == 0 {
        sigs
    } else if sigs.last().member == member {
        sigs_without(sigs.drop_last(), member)
    } else {
        sigs_without(sigs.drop_last(), member).push(sigs.last())
    }
}

/// The signatures of everybody but that member.
pub fn drop_sigs(sigs: &Vec<RosterAttestation>, member: &str) -> (r: Vec<RosterAttestation>)
    ensures
        r.deep_view() == sigs_without(sigs.deep_view(), member@),
{
    let ghost all = sigs.deep_view();
    let mut out: Vec<RosterAttestation> = Vec::new();
    let mut i: usize = 0;
    assert(all.take(0) =~= Seq::empty());
    assert(out.deep_view() =~= Seq::empty());
    while i < sigs.len()
        invariant
            i <= sigs.len(),
            all == sigs.deep_view(),
            out.deep_view() == sigs_without(all.take(i as int), member@),
        decreases sigs.len() - i,
    {
        let ghost done = out.deep_view();
        proof {
            assert(all.take(i + 1).drop_last() =~= all.take(i as int));
            assert(all.take(i + 1).last() == sigs@[i as int].deep_view());
        }
        if !same_text(sigs[i].member.as_str(), member) {
            out.push(sigs[i].clone());
            assert(out.deep_view() =~= done.push(sigs@[i as int].deep_view()));
        }
        i = i + 1;
    }
    assert(all.take(i as int) =~= all);
    out
}

/// The names without one.
pub open spec fn names_without(names: Seq<Seq<char>>, name: Seq<char>) -> Seq<Seq<char>>
    decreases names.len(),
{
    if names.len() == 0 {
        names
    } else if names.last() == name {
        names_without(names.drop_last(), name)
    } else {
        names_without(names.drop_last(), name).push(names.last())
    }
}

/// The names without one.
pub fn drop_name(names: &Vec<String>, name: &str) -> (r: Vec<String>)
    ensures
        r.deep_view() == names_without(names.deep_view(), name@),
{
    let ghost all = names.deep_view();
    let mut out: Vec<String> = Vec::new();
    let mut i: usize = 0;
    assert(all.take(0) =~= Seq::empty());
    assert(out.deep_view() =~= Seq::empty());
    while i < names.len()
        invariant
            i <= names.len(),
            all == names.deep_view(),
            out.deep_view() == names_without(all.take(i as int), name@),
        decreases names.len() - i,
    {
        let ghost done = out.deep_view();
        proof {
            assert(all.take(i + 1).drop_last() =~= all.take(i as int));
            assert(all.take(i + 1).last() == names@[i as int]@);
        }
        if !same_text(names[i].as_str(), name) {
            out.push(names[i].clone());
            assert(out.deep_view() =~= done.push(names@[i as int]@));
        }
        i = i + 1;
    }
    assert(all.take(i as int) =~= all);
    out
}

/// The voices on a card after further ones were heard, each once, in the
/// order heard.
pub open spec fn voices_with(voted: Seq<Seq<char>>, sigs: Seq<AttestationV>) -> Seq<Seq<char>>
    decreases sigs.len(),
{
    if sigs.len() == 0 {
        voted
    } else {
        let rest = voices_with(voted, sigs.drop_last());
        if rest.contains(sigs.last().member) {
            rest
        } else {
            rest.push(sigs.last().member)
        }
    }
}

/// Adds the voices of `sigs` to `voted`, each once.
pub fn hear_voices(voted: &mut Vec<String>, sigs: &Vec<RosterAttestation>)
    ensures
        final(voted).deep_view() == voices_with(old(voted).deep_view(), sigs.deep_view()),
{
    let ghost all = sigs.deep_view();
    let ghost start = voted.deep_view();
    let mut i: usize = 0;
    assert(all.take(0) =~= Seq::empty());
    while i < sigs.len()
        invariant
            i <= sigs.len(),
            all == sigs.deep_view(),
            start == old(voted).deep_view(),
            voted.deep_view() == voices_with(start, all.take(i as int)),
        decreases sigs.len() - i,
    {
        let ghost done = voted.deep_view();
        proof {
            assert(all.take(i + 1).drop_last() =~= all.take(i as int));
            assert(all.take(i + 1).last() == sigs@[i as int].deep_view());
        }
        if !has_name(voted, sigs[i].member.as_str()) {
            voted.push(sigs[i].member.clone());
            assert(voted.deep_view() =~= done.push(sigs@[i as int].member@));
        }
        i = i + 1;
    }
    assert(all.take(i as int) =~= all);
}

/// The votes in order of name with one more; a name that is there keeps its
/// first vote.
pub open spec fn vote_placed(votes: Seq<AttestationV>, vote: AttestationV) -> Seq<AttestationV>
    decreases votes.len(),
{
    if votes.len() == 0 {
        seq![vote]
    } else if votes.last().member == vote.member {
        votes
    } else if text::before(vote.member, votes.last().member) {
        vote_placed(votes.drop_last(), vote).push(votes.last())
    } else {
        votes.push(vote)
    }
}

/// Puts a vote into its place in a list ordered by name, once for a name.
pub fn place_vote(votes: &mut Vec<RosterAttestation>, vote: &RosterAttestation)
    ensures
        final(votes).deep_view() == vote_placed(old(votes).deep_view(), vote.deep_view()),
{
    let ghost all = votes.deep_view();
    let ghost v = vote.deep_view();
    let mut at: usize = votes.len();
    proof {
        assert(all.take(at as int) =~= all);
        assert(all.skip(at as int) =~= Seq::empty());
        assert(vote_placed(all, v) + Seq::<AttestationV>::empty() =~= vote_placed(all, v));
    }
    let mut placed = false;
    while at > 0 && !placed
        invariant
            at <= votes.len(),
            votes.deep_view() == all,
            v == vote.deep_view(),
            all == old(votes).deep_view(),
            vote_placed(all, v) == vote_placed(all.take(at as int), v) + all.skip(at as int),
            placed ==> {
                &&& at > 0
                &&& all[at - 1].member != v.member
                &&& !text::before(v.member, all[at - 1].member)
            },
        decreases at + (if placed { 0int } else { 1int }),
    {
        proof {
            assert(all[at - 1] == votes@[at - 1].deep_view());
            assert(all.take(at as int).last() == all[at - 1]);
            assert(all.take(at as int).drop_last() =~= all.take(at - 1));
        }
        if same_text(votes[at - 1].member.as_str(), vote.member.as_str()) {
            assert(all.take(at as int) + all.skip(at as int) =~= all);
            return;
        }
        if text_before(vote.member.as_str(), votes[at - 1].member.as_str()) {
            proof {
                assert(vote_placed(all.take(at - 1), v).push(all[at - 1]) + all.skip(at as int)
                    =~= vote_placed(all.take(at - 1), v) + all.skip(at - 1));
            }
            at = at - 1;
        } else {
            placed = true;
        }
    }
    votes.insert(at, vote.clone());
    proof {
        assert(votes.deep_view() =~= all.take(at as int).push(v) + all.skip(at as int));
        if at == 0 {
            assert(all.take(0) =~= Seq::empty());
            assert(vote_placed(Seq::<AttestationV>::empty(), v) =~= seq![v]);
            assert(Seq::<AttestationV>::empty().push(v) =~= seq![v]);
        } else {
            assert(all.take(at as int).last() == all[at - 1]);
        }
    }
}

/// The votes that count: from nobody who declines, and vouched for by the
/// roster; in order of name, one for a name.
pub open spec fn counted_votes(
    identities: Seq<IdentityV>,
    bytes: Seq<u8>,
    decliners: Seq<Seq<char>>,
    sigs: Seq<AttestationV>,
) -> Seq<AttestationV>
    decreases sigs.len(),
{
    if sigs.len() == 0 {
        Seq::empty()
    } else {
        let rest = counted_votes(identities, bytes, decliners, sigs.drop_last());
        let vote = sigs.last();
        if !decliners.contains(vote.member) && vouched(identities, bytes, vote.member, vote.sig) {
            vote_placed(rest, vote)
        } else {
            rest
        }
    }
}

/// The votes that count, in order of name.
pub fn count_votes(
    identities: &Vec<MemberIdentity>,
    bytes: &Vec<u8>,
    decliners: &Vec<String>,
    sigs: &Vec<RosterAttestation>,
) -> (r: Vec<RosterAttestation>)
    ensures
        r.deep_view() == counted_votes(
            identities.deep_view(),
            bytes@,
            decliners.deep_view(),
            sigs.deep_view(),
        ),
{
    let ghost ids = identities.deep_view();
    let ghost no = decliners.deep_view();
    let ghost all = sigs.deep_view();
    let mut out: Vec<RosterAttestation> = Vec::new();
    let mut i: usize = 0;
    assert(all.take(0) =~= Seq::empty());
    assert(out.deep_view() =~= Seq::empty());
    while i < sigs.len()
        invariant
            i <= sigs.len(),
            ids == identities.deep_view(),
            no == decliners.deep_view(),
            all == sigs.deep_view(),
            out.deep_view() == counted_votes(ids, bytes@, no, all.take(i as int)),
        decreases sigs.len() - i,
    {
        let vote = &sigs[i];
        proof {
            assert(all.take(i + 1).drop_last() =~= all.take(i as int));
            assert(all.take(i + 1).last() == vote.deep_view());
        }
        if !has_name(decliners, vote.member.as_str()) && seat_vouches(
            identities,
            bytes,
            vote.member.as_str(),
            vote.sig.as_str(),
        ) {
            place_vote(&mut out, vote);
        }
        i = i + 1;
    }
    assert(all.take(i as int) =~= all);
    out
}

/// The seat whose consent a change carries as a voice of its own.
pub open spec fn consenting(change: ChangeV) -> Option<Seq<char>> {
    match change {
        ChangeV::Membership { op: MembershipOp::Restored, member, consent: Some(c), .. } => Some(
            member,
        ),
        _ => None,
    }
}

/// The seat whose consent a change carries as a voice of its own.
pub fn consenting_seat(change: &ChainChange) -> (r: Option<String>)
    ensures
        r.deep_view() == consenting(change.deep_view()),
{
    match change {
        ChainChange::Membership { op, member, consent, .. } => {
            if *op == MembershipOp::Restored && consent.is_some() {
                Some(member.clone())
            } else {
                None
            }
        },
        _ => None,
    }
}

/// The votes that seal `change`, if they are enough: the `need` lowest-named
/// ones, or all of them where only the consent completes the threshold. The
/// consenting seat's own vote never counts beside its consent.
pub open spec fn quorum(change: ChangeV, votes: Seq<AttestationV>, need: nat) -> Option<
    Seq<AttestationV>,
> {
    let others = match consenting(change) {
        Some(member) => sigs_without(votes, member),
        None => votes,
    };
    let extra: nat = if consenting(change) is Some {
        1
    } else {
        0
    };
    if others.len() >= need {
        Some(others.take(need as int))
    } else if others.len() + extra < need {
        None
    } else {
        Some(others)
    }
}

/// The votes that seal `change`, if they are enough.
pub fn reach_quorum(change: &ChainChange, votes: Vec<RosterAttestation>, need: u8) -> (r: Option<
    Vec<RosterAttestation>,
>)
    ensures
        r.deep_view() == quorum(change.deep_view(), votes.deep_view(), need as nat),
{
    let consent = consenting_seat(change);
    let extra: usize = if consent.is_some() {
        1
    } else {
        0
    };
    let mut others: Vec<RosterAttestation> = match &consent {
        Some(member) => drop_sigs(&votes, member.as_str()),
        None => votes,
    };
    let ghost all = others.deep_view();
    let need: usize = need as usize;
    if others.len() >= need {
        others.truncate(need);
        assert(others.deep_view() =~= all.take(need as int));
        Some(others)
    } else if others.len() + extra < need {
        None
    } else {
        Some(others)
    }
}

} // verus!
