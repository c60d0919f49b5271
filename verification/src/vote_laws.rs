//! What holds of a vote, from the proposal to the block that seals it.

use crate::canonical;
use crate::fold;
use crate::governance;
use crate::identity;
use crate::model::{AttestationV, BlockV, ChangeV, IdentityV, MembershipOp, Surface};
use crate::payload::PayloadV;
use crate::silence_laws;
use crate::state::{EffectV, EventV, PendingV, ProposalState, RecordV, StateV, WireV};
use crate::state_laws;
use crate::table;
use crate::text;
use crate::votes;
use vstd::prelude::*;

verus! {

/// The signatures of everybody but a member are the others, in order.
proof fn lemma_sigs_without(sigs: Seq<AttestationV>, member: Seq<char>)
    ensures
        votes::sigs_without(sigs, member) == sigs.filter(|a: AttestationV| a.member != member),
    decreases sigs.len(),
{
    reveal(Seq::filter);
    if sigs.len() > 0 {
        lemma_sigs_without(sigs.drop_last(), member);
    }
}

/// The seat whose consent a change carries: that of a restore with a consent.
pub open spec fn consent_of(change: ChangeV) -> Option<Seq<char>> {
    match change {
        ChangeV::Membership { op, member, consent, .. } => if op == MembershipOp::Restored
            && consent is Some {
            Some(member)
        } else {
            None
        },
        _ => None,
    }
}

/// Votes seal a change exactly where they are enough, a consent counting as
/// one more: then the lowest-named ones do, as many as are needed, and the
/// consenting seat's own vote is none of them.
pub proof fn enough_votes_seal(change: ChangeV, list: Seq<AttestationV>, need: nat)
    ensures
        ({
            let others = match consent_of(change) {
                Some(member) => list.filter(|a: AttestationV| a.member != member),
                None => list,
            };
            let extra: nat = if consent_of(change) is Some {
                1
            } else {
                0
            };
            &&& votes::quorum(change, list, need) is Some <==> others.len() + extra >= need
            &&& votes::quorum(change, list, need) matches Some(sigs) ==> {
                &&& sigs.len() <= need
                &&& sigs.len() == need || sigs.len() == others.len()
                &&& forall|i: int| 0 <= i < sigs.len() ==> #[trigger] sigs[i] == others[i]
            }
        }),
{
    match consent_of(change) {
        Some(member) => {
            lemma_sigs_without(list, member);
        },
        None => {},
    }
}

/// Leaving a member out of votes in order of name is placing nobody but the
/// others.
proof fn lemma_placed_without(list: Seq<AttestationV>, vote: AttestationV, member: Seq<char>)
    requires
        state_laws::by_name(list),
    ensures
        votes::sigs_without(votes::vote_placed(list, vote), member) == (if vote.member == member {
            votes::sigs_without(list, member)
        } else {
            votes::vote_placed(votes::sigs_without(list, member), vote)
        }),
    decreases list.len(),
{
    if list.len() == 0 {
        let one = seq![vote];
        assert(one.drop_last() =~= Seq::<AttestationV>::empty());
        assert(votes::sigs_without(one.drop_last(), member) =~= Seq::empty());
        if vote.member != member {
            assert(votes::sigs_without(one, member) =~= one);
        }
    } else {
        let front = list.drop_last();
        let top = list.last();
        assert forall|i: int, j: int| 0 <= i < j < front.len() implies text::before(
            (#[trigger] front[i]).member,
            (#[trigger] front[j]).member,
        ) by {
            assert(front[i] == list[i] && front[j] == list[j]);
        }
        let rest = votes::sigs_without(front, member);
        if top.member == vote.member {
            if vote.member != member {
                assert(rest.push(top).last() == top);
            }
        } else if text::before(vote.member, top.member) {
            lemma_placed_without(front, vote, member);
            let inner = votes::vote_placed(front, vote);
            assert(inner.push(top).drop_last() =~= inner);
            if top.member != member && vote.member != member {
                assert(rest.push(top).drop_last() =~= rest);
            }
        } else {
            let all = list.push(vote);
            assert(all.drop_last() =~= list);
            if vote.member != member {
                let kept = votes::sigs_without(list, member);
                lemma_sigs_without(list, member);
                if kept.len() > 0 {
                    list.lemma_filter_pred(|a: AttestationV| a.member != member, kept.len() - 1);
                    lemma_last_of(list, member);
                    let k = choose|k: int| 0 <= k < list.len() && list[k] == kept.last();
                    text::lemma_before_total(top.member, vote.member);
                    if k < list.len() - 1 {
                        assert(text::before(list[k].member, list[list.len() - 1].member));
                        text::lemma_before_transitive(list[k].member, top.member, vote.member);
                    }
                    text::lemma_before_irreflexive(vote.member);
                    if text::before(vote.member, kept.last().member) {
                        text::lemma_before_transitive(
                            vote.member,
                            kept.last().member,
                            vote.member,
                        );
                    }
                }
            }
        }
    }
}

/// What is left last stood in the list.
proof fn lemma_last_of(list: Seq<AttestationV>, member: Seq<char>)
    ensures
        votes::sigs_without(list, member).len() > 0 ==> exists|k: int|
            0 <= k < list.len() && list[k] == votes::sigs_without(list, member).last(),
    decreases list.len(),
{
    if list.len() > 0 {
        let front = list.drop_last();
        lemma_last_of(front, member);
        if list.last().member != member {
            assert(list[list.len() - 1] == list.last());
        } else if votes::sigs_without(front, member).len() > 0 {
            let k = choose|k: int|
                0 <= k < front.len() && front[k] == votes::sigs_without(front, member).last();
            assert(list[k] == front[k]);
        }
    }
}

/// Leaving a member's vote out of the count is counting as if it declined.
proof fn lemma_counted_without(
    identities: Seq<IdentityV>,
    bytes: Seq<u8>,
    decliners: Seq<Seq<char>>,
    sigs: Seq<AttestationV>,
    member: Seq<char>,
)
    ensures
        votes::sigs_without(votes::counted_votes(identities, bytes, decliners, sigs), member)
            == votes::counted_votes(identities, bytes, decliners.push(member), sigs),
    decreases sigs.len(),
{
    if sigs.len() > 0 {
        let front = sigs.drop_last();
        let vote = sigs.last();
        lemma_counted_without(identities, bytes, decliners, front, member);
        state_laws::the_votes_that_count(identities, bytes, decliners, front);
        lemma_placed_without(
            votes::counted_votes(identities, bytes, decliners, front),
            vote,
            member,
        );
        let more = decliners.push(member);
        assert(more[decliners.len() as int] == member);
        assert(more.contains(vote.member) <==> decliners.contains(vote.member) || vote.member
            == member) by {
            if decliners.contains(vote.member) {
                let k = choose|k: int| 0 <= k < decliners.len() && decliners[k] == vote.member;
                assert(more[k] == vote.member);
            }
            if more.contains(vote.member) {
                let k = choose|k: int| 0 <= k < more.len() && more[k] == vote.member;
                if k < decliners.len() {
                    assert(decliners[k] == vote.member);
                }
            }
        }
    }
}

/// Where each name signed once, every signature that counts is counted once.
proof fn lemma_counted_len(
    identities: Seq<IdentityV>,
    bytes: Seq<u8>,
    decliners: Seq<Seq<char>>,
    sigs: Seq<AttestationV>,
)
    requires
        state_laws::one_each(sigs),
    ensures
        votes::counted_votes(identities, bytes, decliners, sigs).len() == sigs.filter(
            |v: AttestationV| state_laws::counts(identities, bytes, decliners, v),
        ).len(),
    decreases sigs.len(),
{
    reveal(Seq::filter);
    if sigs.len() > 0 {
        let front = sigs.drop_last();
        let vote = sigs.last();
        assert forall|i: int, j: int| 0 <= i < j < front.len() implies (#[trigger] front[i]).member
            != (#[trigger] front[j]).member by {
            assert(front[i] == sigs[i] && front[j] == sigs[j]);
        }
        lemma_counted_len(identities, bytes, decliners, front);
        state_laws::the_votes_that_count(identities, bytes, decliners, front);
        let rest = votes::counted_votes(identities, bytes, decliners, front);
        assert forall|k: int| 0 <= k < rest.len() implies (#[trigger] rest[k]).member
            != vote.member by {
            assert(rest.contains(rest[k]));
            let m = choose|m: int| 0 <= m < front.len() && front[m] == rest[k];
            assert(sigs[m] == front[m]);
            assert(sigs[m].member != sigs[sigs.len() - 1].member);
        }
        lemma_placed_len(rest, vote);
    }
}

/// A vote under a new name is one more.
proof fn lemma_placed_len(list: Seq<AttestationV>, vote: AttestationV)
    requires
        forall|k: int| 0 <= k < list.len() ==> (#[trigger] list[k]).member != vote.member,
    ensures
        votes::vote_placed(list, vote).len() == list.len() + 1,
    decreases list.len(),
{
    if list.len() > 0 {
        let front = list.drop_last();
        assert(list[list.len() - 1].member != vote.member);
        assert forall|k: int| 0 <= k < front.len() implies (#[trigger] front[k]).member
            != vote.member by {
            assert(front[k] == list[k]);
        }
        lemma_placed_len(front, vote);
    }
}

/// An open vote that has gathered the threshold seals, and one that has not
/// does not: there are as many signatures at the next height as the rule asks
/// for, a consent counting as one, each vouched for by the roster, from nobody
/// who declines and not from the consenting seat itself.
pub proof fn a_vote_seals_exactly_at_the_threshold(s: StateV, id: u64)
    requires
        s.head is Some,
        s.head->0.height < u64::MAX,
        s.change_for(id) is Some,
        table::get(s.pending_sigs, id) is Some,
        state_laws::one_each(table::get(s.pending_sigs, id)->0.sigs),
        table::get(s.proposals, id) is Some ==> table::get(s.proposals, id)->0.state
            == ProposalState::Proposed,
    ensures
        ({
            let change = s.change_for(id)->0;
            let height = (s.head->0.height + 1) as u64;
            let held = table::get(s.pending_sigs, id)->0;
            let voices = held.sigs.filter(
                |a: AttestationV|
                    {
                        &&& !(table::get(s.proposals, id) is Some && table::get(
                            s.proposals,
                            id,
                        )->0.decliners.contains(a.member))
                        &&& consent_of(change) != Some(a.member)
                        &&& votes::vouched(
                            s.head->0.identities,
                            canonical::approval_bytes_of(s.rid(), height, change),
                            a.member,
                            a.sig,
                        )
                    },
            );
            s.sealable(id) is Some <==> held.height == height && voices.len() + (if consent_of(
                change,
            ) is Some {
                1int
            } else {
                0int
            }) >= s.head->0.rule_m
        }),
{
    let change = s.change_for(id)->0;
    let height = (s.head->0.height + 1) as u64;
    let held = table::get(s.pending_sigs, id)->0;
    let ids = s.head->0.identities;
    let bytes = canonical::approval_bytes_of(s.rid(), height, change);
    let no = s.decliners_of(id);
    let pass = |a: AttestationV|
        {
            &&& !(table::get(s.proposals, id) is Some && table::get(
                s.proposals,
                id,
            )->0.decliners.contains(a.member))
            &&& consent_of(change) != Some(a.member)
            &&& votes::vouched(ids, bytes, a.member, a.sig)
        };
    match consent_of(change) {
        Some(member) => {
            let more = no.push(member);
            lemma_counted_without(ids, bytes, no, held.sigs, member);
            lemma_counted_len(ids, bytes, more, held.sigs);
            let count = |v: AttestationV| state_laws::counts(ids, bytes, more, v);
            assert forall|a: AttestationV| #[trigger] pass(a) == count(a) by {
                assert(more[no.len() as int] == member);
                if no.contains(a.member) {
                    let k = choose|k: int| 0 <= k < no.len() && no[k] == a.member;
                    assert(more[k] == a.member);
                }
                if more.contains(a.member) {
                    let k = choose|k: int| 0 <= k < more.len() && more[k] == a.member;
                    if k < no.len() {
                        assert(no[k] == a.member);
                    }
                }
            }
            lemma_same_filter(held.sigs, pass, count);
        },
        None => {
            lemma_counted_len(ids, bytes, no, held.sigs);
            let count = |v: AttestationV| state_laws::counts(ids, bytes, no, v);
            assert forall|a: AttestationV| #[trigger] pass(a) == count(a) by {}
            lemma_same_filter(held.sigs, pass, count);
        },
    }
}

/// Two filters that agree leave the same.
proof fn lemma_same_filter<A>(list: Seq<A>, p: spec_fn(A) -> bool, q: spec_fn(A) -> bool)
    requires
        forall|a: A| #[trigger] p(a) == q(a),
    ensures
        list.filter(p) == list.filter(q),
    decreases list.len(),
{
    reveal(Seq::filter);
    if list.len() > 0 {
        lemma_same_filter(list.drop_last(), p, q);
        assert(p(list.last()) == q(list.last()));
    }
}

/// What a proposal would enact: the change that is registered for it, else
/// what its card says, but for a membership card, which alone says too little.
pub proof fn a_proposal_enacts_what_it_says(s: StateV, id: u64)
    ensures
        table::get(s.proposal_changes, id) matches Some(c) ==> s.change_for(id) == Some(c),
        table::get(s.proposal_changes, id) is None ==> match table::get(s.proposals, id) {
            Some(p) => {
                let op = p.payload.text("op"@);
                if op == Some("restore_member"@) || op == Some("add_member"@) {
                    s.change_for(id) is None
                } else {
                    s.change_for(id) == Some(
                        ChangeV::Applied { proposal_id: id, surface: p.surface, payload: p.payload },
                    )
                }
            },
            None => s.change_for(id) is None,
        },
{
}

/// A signature is kept where the vote is open, its member has a seat, and it
/// verified or is somebody else's, unless it is for a lower height or would
/// take a verified one's place. It then stands last, alone under its name, and
/// not yet as verified; a higher height starts anew. No other vote changes.
pub proof fn a_signature_is_kept_under_its_name(
    s: StateV,
    id: u64,
    height: u64,
    att: AttestationV,
    verified: bool,
)
    ensures
        ({
            let w = s.collecting(id, height, att, verified);
            let held = match table::get(s.pending_sigs, id) {
                Some(p) => p,
                None => PendingV { height: 0, sigs: Seq::empty(), verified: Seq::empty() },
            };
            let may = {
                &&& table::get(s.proposals, id) is Some ==> table::get(s.proposals, id)->0.state
                    == ProposalState::Proposed
                &&& s.head is Some
                &&& exists|i: int|
                    0 <= i < s.head->0.identities.len() && (
                    #[trigger] s.head->0.identities[i]).member == att.member
                &&& verified || att.member != s.me()
            };
            let kept = may && height >= held.height && !(height == held.height && !verified
                && held.verified.contains(att.member));
            &&& !kept ==> w == s
            &&& kept ==> {
                let now = table::get(w.pending_sigs, id);
                &&& now is Some
                &&& now->0.height == height
                &&& now->0.sigs == (if height == held.height {
                    held.sigs.filter(|a: AttestationV| a.member != att.member)
                } else {
                    Seq::empty()
                }).push(att)
                &&& forall|m: Seq<char>| #[trigger]
                    now->0.verified.contains(m) <==> (height == held.height && m != att.member
                        && held.verified.contains(m))
                &&& forall|other: u64|
                    other != id ==> #[trigger] table::get(w.pending_sigs, other) == table::get(
                        s.pending_sigs,
                        other,
                    )
                &&& w == StateV { pending_sigs: w.pending_sigs, ..s }
            }
        }),
{
    let w = s.collecting(id, height, att, verified);
    let held = s.held(id);
    let set = if height > held.height {
        PendingV { height, ..governance::no_votes() }
    } else {
        held
    };
    lemma_sigs_without(set.sigs, att.member);
    crate::chat_laws::lemma_names_without(set.verified, att.member);
    let next = PendingV {
        height: set.height,
        sigs: votes::sigs_without(set.sigs, att.member).push(att),
        verified: votes::names_without(set.verified, att.member),
    };
    assert(votes::sigs_without(Seq::<AttestationV>::empty(), att.member) =~= Seq::empty());
    assert forall|other: u64|
        #[trigger] table::get(table::put(s.pending_sigs, id, next), other) == (if other == id {
            Some(next)
        } else {
            table::get(s.pending_sigs, other)
        }) by {
        table::reading_a_put(s.pending_sigs, id, next, other);
    }
    if s.may_collect(id, att.member, verified) && height >= held.height && !(!verified
        && set.verified.contains(att.member)) {
        assert(table::get(w.pending_sigs, id) == Some(next));
        assert forall|m: Seq<char>| #[trigger] next.verified.contains(m) <==> (height == held.height
            && m != att.member && held.verified.contains(m)) by {}
    }
}

/// A signature approves where it is over the proposal's own change at the next
/// height and some seat of its name vouches for it.
pub proof fn an_approval_is_of_the_change_at_the_next_height(
    s: StateV,
    id: u64,
    height: u64,
    att: AttestationV,
)
    ensures
        s.approves(id, height, att) <==> {
            &&& s.head is Some
            &&& s.head->0.height < u64::MAX
            &&& height == s.head->0.height + 1
            &&& s.change_for(id) is Some
            &&& exists|i: int|
                0 <= i < s.head->0.identities.len() && (
                #[trigger] s.head->0.identities[i]).member == att.member && identity::verifies(
                    s.head->0.identities[i].identity_pk,
                    canonical::approval_bytes_of(s.rid(), height, s.change_for(id)->0),
                    att.sig,
                )
        },
{
}

/// A holder's own approval is a decision on record: it signs the proposal's
/// change at the next height with its own key, sends exactly that signature
/// and holds it as verified.
pub proof fn an_own_approval_is_signed_and_sent(s: StateV, id: u64)
    requires
        s.identity_sk is Some,
        s.head is Some,
        s.head->0.height < u64::MAX,
        s.change_for(id) is Some,
    ensures
        ({
            let height = (s.head->0.height + 1) as u64;
            let sig = identity::signature_text(
                s.identity_sk->0,
                canonical::approval_bytes_of(s.rid(), height, s.change_for(id)->0),
            );
            let v = s.voicing(id);
            let w = s.signing(id);
            let n = s.effects.len() as int;
            &&& v.own_approvals.contains(id)
            &&& forall|other: u64|
                other != id ==> (#[trigger] v.own_approvals.contains(other)
                    <==> s.own_approvals.contains(other))
            &&& v.effects == s.effects.push(
                EffectV::Send { body: WireV::Approved { id, by: s.me(), height, sig } },
            )
            &&& w.effects.len() > n
            &&& w.effects[n] == v.effects[n]
            &&& (table::get(s.proposals, id) is Some ==> table::get(s.proposals, id)->0.state
                == ProposalState::Proposed) && (exists|i: int|
                0 <= i < s.head->0.identities.len() && (
                #[trigger] s.head->0.identities[i]).member == s.me()) && (table::get(
                s.pending_sigs,
                id,
            ) is Some ==> table::get(s.pending_sigs, id)->0.height <= height) ==> {
                let now = table::get(v.pending_sigs, id);
                &&& now is Some
                &&& now->0.height == height
                &&& now->0.sigs.contains(AttestationV { member: s.me(), sig })
                &&& now->0.verified.contains(s.me())
            }
        }),
{
    let height = (s.head->0.height + 1) as u64;
    let att = s.own_signature(height, s.change_for(id)->0);
    let decided = StateV {
        own_approvals: crate::state::with_id(s.own_approvals, id),
        ..s
    };
    lemma_with_id(s.own_approvals, id);
    a_signature_is_kept_under_its_name(decided, id, height, att, true);
    let collected = decided.collecting(id, height, att, true);
    match table::get(collected.pending_sigs, id) {
        Some(p) => {
            let next = PendingV { verified: text::insert_name(p.verified, att.member), ..p };
            table::reading_a_put(collected.pending_sigs, id, next, id);
            lemma_insert_has(p.verified, att.member);
            if p.sigs.len() > 0 && p.sigs.last() == att {
                assert(p.sigs[p.sigs.len() - 1] == att);
            }
        },
        None => {},
    }
    silence_laws::lemma_committing_silent(s.voicing(id), id, s.voicing(id).next_id);
    assert(s.signing(id).effects[s.effects.len() as int] == s.voicing(id).effects[s.effects.len() as int]);
}

/// A name put in is there.
proof fn lemma_insert_has(names: Seq<Seq<char>>, name: Seq<char>)
    ensures
        text::insert_name(names, name).contains(name),
    decreases names.len(),
{
    let out = text::insert_name(names, name);
    if names.len() == 0 {
        assert(out[0] == name);
    } else {
        lemma_insert_has(names.drop_last(), name);
        if names.last() == name {
            assert(out[names.len() - 1] == name);
        } else if text::before(names.last(), name) {
            assert(out[names.len() as int] == name);
        } else {
            let inner = text::insert_name(names.drop_last(), name);
            let k = choose|k: int| 0 <= k < inner.len() && inner[k] == name;
            assert(out[k] == name);
        }
    }
}

/// An id put in is there, beside those that were.
proof fn lemma_with_id(ids: Seq<u64>, id: u64)
    ensures
        crate::state::with_id(ids, id).contains(id),
        forall|other: u64|
            other != id ==> (#[trigger] crate::state::with_id(ids, id).contains(other)
                <==> ids.contains(other)),
    decreases ids.len(),
{
    if !ids.contains(id) {
        lemma_id_inserted(ids, id);
    }
}

/// An id put in its place is there, beside those that were.
proof fn lemma_id_inserted(ids: Seq<u64>, id: u64)
    ensures
        forall|x: u64| #[trigger]
            fold::insert_id(ids, id).contains(x) <==> (x == id || ids.contains(x)),
    decreases ids.len(),
{
    let out = fold::insert_id(ids, id);
    if ids.len() == 0 {
        assert(out[0] == id);
    } else {
        let front = ids.drop_last();
        lemma_id_inserted(front, id);
        assert forall|x: u64| #[trigger] out.contains(x) <==> (x == id || ids.contains(x)) by {
            if ids.last() <= id {
                assert(out[ids.len() as int] == id);
                if ids.contains(x) {
                    let k = choose|k: int| 0 <= k < ids.len() && ids[k] == x;
                    assert(out[k] == x);
                }
                if out.contains(x) {
                    let k = choose|k: int| 0 <= k < out.len() && out[k] == x;
                    if k < ids.len() {
                        assert(ids[k] == x);
                    }
                }
            } else {
                let inner = fold::insert_id(front, id);
                if out.contains(x) {
                    let k = choose|k: int| 0 <= k < out.len() && out[k] == x;
                    if k < inner.len() {
                        assert(inner[k] == x);
                        assert(inner.contains(x));
                        if x != id {
                            let j = choose|j: int| 0 <= j < front.len() && front[j] == x;
                            assert(ids[j] == x);
                        }
                    } else {
                        assert(ids[ids.len() - 1] == x);
                    }
                }
                if x == id || ids.contains(x) {
                    if x == ids.last() {
                        assert(out[inner.len() as int] == x);
                    } else {
                        if ids.contains(x) {
                            let j = choose|j: int| 0 <= j < ids.len() && ids[j] == x;
                            assert(front[j] == x);
                        }
                        assert(inner.contains(x));
                        let k = choose|k: int| 0 <= k < inner.len() && inner[k] == x;
                        assert(out[k] == x);
                    }
                }
            }
        }
    }
}

/// A peer's approval that completes nothing is held under its name, as
/// verified exactly where it approves; one without a signature, for a height
/// beyond the next or under an id out of reach is passed over.
pub proof fn a_heard_approval_is_held(s: StateV, id: u64, height: u64, att: AttestationV)
    ensures
        att.sig.len() == 0 ==> s.approval_heard(id, height, att) == s,
        s.head is Some && height > s.head->0.height + 1 ==> s.approval_heard(id, height, att) == s,
        id > s.next_id + 4096 ==> s.approval_heard(id, height, att) == s,
        ({
            let w = s.approval_heard(id, height, att);
            let kept = s.collecting(id, height, att, s.approves(id, height, att));
            let now = table::get(w.pending_sigs, id);
            att.sig.len() > 0 && !(s.target() is Some && height > s.target()->0) && s.plausible(id)
                && kept != s && w.blocks == s.blocks && w.sealable(id) is None && kept.marking(
                id,
                att.member,
            ).sealable(id) is None && kept.sealable(id) is None ==> {
                &&& now is Some
                &&& now->0.sigs.contains(att)
                &&& now->0.verified.contains(att.member) <==> s.approves(id, height, att)
            }
        }),
{
    let verified = s.approves(id, height, att);
    a_signature_is_kept_under_its_name(s, id, height, att, verified);
    let kept = s.collecting(id, height, att, verified);
    match table::get(kept.pending_sigs, id) {
        Some(p) => {
            let next = PendingV { verified: text::insert_name(p.verified, att.member), ..p };
            table::reading_a_put(kept.pending_sigs, id, next, id);
            lemma_insert_has(p.verified, att.member);
            if p.sigs.len() > 0 && p.sigs.last() == att {
                assert(p.sigs[p.sigs.len() - 1] == att);
            }
        },
        None => {},
    }
}

/// A proposal taken from the wire gets an open card that says what was
/// proposed and by whom, with nothing for or against it yet.
pub proof fn a_heard_proposal_is_carded_as_it_came(
    s: StateV,
    id: u64,
    surface: Surface,
    payload: PayloadV,
    by: Seq<char>,
)
    ensures
        ({
            let w = s.proposed_here(id, surface, payload, by);
            let taken = {
                &&& id <= s.next_id + 4096 || s.next_id + 4096 > u64::MAX
                &&& governance::open_cards_by(s.proposals, by) < 64
                &&& table::get(s.proposal_changes, id) is None
                &&& table::get(s.proposals, id) is None
                &&& !(s.walk is Some && s.walk->0.seen.contains(id))
            };
            &&& taken ==> {
                let card = table::get(w.proposals, id);
                &&& card is Some
                &&& card->0.surface == surface
                &&& card->0.payload == payload
                &&& card->0.by == by
                &&& card->0.state == ProposalState::Proposed
                &&& card->0.approvals == 0
                &&& card->0.decliners.len() == 0
                &&& card->0.voted.len() == 0
                &&& !card->0.superseded
                &&& !card->0.withdrawn
                &&& id < u64::MAX ==> w.next_id > id
                &&& w.next_id >= s.next_id
            }
            &&& !taken ==> w.proposals == s.proposals
            &&& forall|other: u64|
                other != id ==> #[trigger] table::get(w.proposals, other) == table::get(
                    s.proposals,
                    other,
                )
        }),
{
    let card = governance::open_card(surface, payload, by);
    assert forall|other: u64|
        #[trigger] table::get(table::put(s.proposals, id, card), other) == (if other == id {
            Some(card)
        } else {
            table::get(s.proposals, other)
        }) by {
        table::reading_a_put(s.proposals, id, card, other);
    }
}

/// How many cards of a proposer are open is how many there are.
pub proof fn open_cards_are_counted(cards: Seq<(u64, RecordV)>, by: Seq<char>)
    ensures
        governance::open_cards_by(cards, by) == cards.filter(
            |r: (u64, RecordV)| r.1.state == ProposalState::Proposed && r.1.by == by,
        ).len(),
    decreases cards.len(),
{
    reveal(Seq::filter);
    if cards.len() > 0 {
        open_cards_are_counted(cards.drop_last(), by);
    }
}

/// Whoever voted is kept on the card once a vote is forgotten, and what was
/// collected and registered for it is gone; every other proposal stays as it
/// is.
pub proof fn a_forgotten_vote_leaves_its_voters(s: StateV, id: u64, other: u64)
    requires
        other != id,
    ensures
        ({
            let w = s.forgetting(id);
            &&& table::get(w.pending_sigs, id) is None
            &&& table::get(w.proposal_changes, id) is None
            &&& table::get(w.pending_sigs, other) == table::get(s.pending_sigs, other)
            &&& table::get(w.proposal_changes, other) == table::get(s.proposal_changes, other)
            &&& table::get(w.proposals, other) == table::get(s.proposals, other)
            &&& match (table::get(s.proposals, id), table::get(w.proposals, id)) {
                (Some(p), Some(q)) => {
                    &&& q == RecordV { voted: q.voted, ..p }
                    &&& forall|m: Seq<char>| #[trigger]
                        q.voted.contains(m) <==> (p.voted.contains(m) || (table::get(
                            s.pending_sigs,
                            id,
                        ) is Some && exists|i: int|
                            0 <= i < table::get(s.pending_sigs, id)->0.sigs.len() && (
                            #[trigger] table::get(s.pending_sigs, id)->0.sigs[i]).member == m))
                },
                (None, None) => true,
                _ => false,
            }
            &&& w.effects == s.effects
        }),
{
    table::reading_a_removal(s.pending_sigs, id, id);
    table::reading_a_removal(s.pending_sigs, id, other);
    table::reading_a_removal(s.proposal_changes, id, id);
    table::reading_a_removal(s.proposal_changes, id, other);
    match (table::get(s.pending_sigs, id), table::get(s.proposals, id)) {
        (Some(held), Some(p)) => {
            let next = RecordV { voted: votes::voices_with(p.voted, held.sigs), ..p };
            table::reading_a_put(s.proposals, id, next, id);
            table::reading_a_put(s.proposals, id, next, other);
            lemma_voices(p.voted, held.sigs);
        },
        _ => {},
    }
}

/// The voices on a card are those that were there and those that signed.
proof fn lemma_voices(voted: Seq<Seq<char>>, sigs: Seq<AttestationV>)
    ensures
        forall|m: Seq<char>| #[trigger]
            votes::voices_with(voted, sigs).contains(m) <==> (voted.contains(m) || exists|i: int|
                0 <= i < sigs.len() && (#[trigger] sigs[i]).member == m),
    decreases sigs.len(),
{
    if sigs.len() > 0 {
        let front = sigs.drop_last();
        let top = sigs.last().member;
        lemma_voices(voted, front);
        let rest = votes::voices_with(voted, front);
        let out = votes::voices_with(voted, sigs);
        assert forall|m: Seq<char>| #[trigger] out.contains(m) <==> (voted.contains(m) || exists|
            i: int,
        |
            0 <= i < sigs.len() && (#[trigger] sigs[i]).member == m) by {
            if rest.contains(m) {
                let k = choose|k: int| 0 <= k < rest.len() && rest[k] == m;
                assert(out[k] == m);
                if !voted.contains(m) {
                    let i = choose|i: int|
                        0 <= i < front.len() && (#[trigger] front[i]).member == m;
                    assert(sigs[i].member == m);
                }
            }
            if m == top {
                assert(sigs[sigs.len() - 1].member == m);
                if !rest.contains(top) {
                    assert(out[rest.len() as int] == m);
                }
            }
            if out.contains(m) && m != top {
                let k = choose|k: int| 0 <= k < out.len() && out[k] == m;
                assert(rest[k] == m);
            }
            if exists|i: int| 0 <= i < sigs.len() && (#[trigger] sigs[i]).member == m {
                let i = choose|i: int| 0 <= i < sigs.len() && (#[trigger] sigs[i]).member == m;
                if i < front.len() {
                    assert(front[i].member == m);
                }
            }
        }
    }
}

/// A decision that a block brings settles its card: the card says what the
/// block says where there was none, it reads applied, what was collected for
/// it is gone, the frontends are told, and the organization is looked at anew
/// where it changed.
pub proof fn a_decision_settles_its_card(s: StateV, block: BlockV)
    requires
        block.change is Applied,
    ensures
        ({
            let id = block.change->Applied_proposal_id;
            let surface = block.change->Applied_surface;
            let w = s.block_settled(block);
            let card = table::get(w.proposals, id);
            let n = s.effects.len() as int;
            &&& card is Some
            &&& card->0.state == ProposalState::Applied
            &&& match table::get(s.proposals, id) {
                Some(p) => card->0.surface == p.surface && card->0.payload == p.payload
                    && card->0.by == p.by,
                None => card->0.surface == surface && card->0.payload
                    == block.change->Applied_payload && card->0.by.len() == 0,
            }
            &&& table::get(w.pending_sigs, id) is None
            &&& forall|other: u64|
                other != id ==> #[trigger] table::get(w.proposals, other) == table::get(
                    s.proposals,
                    other,
                )
            &&& forall|other: u64|
                other != id ==> #[trigger] table::get(w.pending_sigs, other) == table::get(
                    s.pending_sigs,
                    other,
                )
            &&& w.effects == (if surface == Surface::Organization {
                s.effects.push(EffectV::Emit { event: EventV::Applied { id, surface } }).push(
                    EffectV::OrgApplied,
                )
            } else {
                s.effects.push(EffectV::Emit { event: EventV::Applied { id, surface } })
            })
        }),
{
    let id = block.change->Applied_proposal_id;
    let surface = block.change->Applied_surface;
    let d = crate::projection::DecisionV { id, surface, payload: block.change->Applied_payload };
    let made = s.card_made(d);
    let fresh = RecordV {
        state: ProposalState::Applied,
        ..governance::open_card(d.surface, d.payload, Seq::empty())
    };
    assert forall|k: u64| #[trigger] table::get(table::put(s.proposals, id, fresh), k) == (if k
        == id {
        Some(fresh)
    } else {
        table::get(s.proposals, k)
    }) by {
        table::reading_a_put(s.proposals, id, fresh, k);
    }
    let p = table::get(made.proposals, id)->0;
    let done = RecordV { state: ProposalState::Applied, ..p };
    assert forall|k: u64| #[trigger] table::get(table::put(made.proposals, id, done), k) == (if k
        == id {
        Some(done)
    } else {
        table::get(made.proposals, k)
    }) by {
        table::reading_a_put(made.proposals, id, done, k);
    }
    let applied = made.card_applied(id);
    match table::get(applied.pending_sigs, id) {
        Some(held) => {
            let next = RecordV { voted: votes::voices_with(done.voted, held.sigs), ..done };
            assert forall|k: u64| #[trigger] table::get(table::put(applied.proposals, id, next), k)
                == (if k == id {
                Some(next)
            } else {
                table::get(applied.proposals, k)
            }) by {
                table::reading_a_put(applied.proposals, id, next, k);
            }
        },
        None => {},
    }
    assert forall|k: u64| #[trigger] table::get(table::del(s.pending_sigs, id), k) == (if k == id {
        None
    } else {
        table::get(s.pending_sigs, k)
    }) by {
        table::reading_a_removal(s.pending_sigs, id, k);
    }
}

/// A sealed block is told to the members as it is, and a decision to those who
/// discuss it, with the payload that was decided.
pub proof fn a_sealed_block_is_told_as_it_is(s: StateV, block: BlockV, id: u64)
    ensures
        ({
            let w = s.announced(block, id);
            let sent = s.effects.push(EffectV::Send { body: WireV::Committed { block } });
            w.effects == (match block.change {
                ChangeV::Applied { payload, .. } => sent.push(
                    EffectV::DecisionSummary { id, payload },
                ),
                _ => sent,
            })
        }),
{
}

} // verus!
