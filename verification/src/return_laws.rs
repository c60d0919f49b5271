//! What holds of a member that comes back.

use crate::canonical;
use crate::export_laws;
use crate::history;
use crate::identity;
use crate::membership::RequestV;
use crate::model::{BlockV, ChangeV, MembershipOp, Surface};
use crate::payload;
use crate::recovery;
use crate::rekey::{FactsV, RekeyRefusal};
use crate::signers;
use crate::silence_laws;
use crate::state::{EffectV, ProposalState, RecoveryV, StateV, WireV};
use crate::table;
use crate::text;
use vstd::prelude::*;

verus! {

/// A text as a change carries it: none where it is empty.
pub open spec fn named(t: Seq<char>) -> Option<Seq<char>> {
    if t.len() > 0 {
        Some(t)
    } else {
        None
    }
}

/// The relays that a returning member is put down with: those it declares;
/// else the founding pool, where it brings a new transport key; else none.
pub open spec fn relays_for(s: StateV, q: RequestV) -> Seq<Seq<char>> {
    if q.relays.len() > 0 {
        q.relays
    } else if q.nostr_pk.len() > 0 {
        s.founding_pool()
    } else {
        Seq::empty()
    }
}

/// The state in which an accepted request is announced: what `restoring` ends
/// with before it signs.
proof fn lemma_restore_announced(s: StateV, q: RequestV) -> (t: StateV)
    requires
        s.restore_refusal(q) is None,
    ensures
        t.effects == s.effects.push(
            EffectV::Send {
                body: WireV::MembershipProposed {
                    id: s.next_id,
                    op: MembershipOp::Restored,
                    member: q.member,
                    identity_pk: q.identity_pk,
                    nostr_pk: named(q.nostr_pk),
                    relays: relays_for(s, q),
                    consent: named(q.consent),
                },
            },
        ),
        table::get(t.proposal_changes, s.next_id) == Some(
            ChangeV::Membership {
                op: MembershipOp::Restored,
                member: q.member,
                identity_pk: q.identity_pk,
                nostr_pk: named(q.nostr_pk),
                relays: relays_for(s, q),
                consent: named(q.consent),
            },
        ),
        forall|id: u64| #[trigger]
            table::get(t.proposal_changes, id) == (if id == s.next_id {
                table::get(t.proposal_changes, s.next_id)
            } else {
                table::get(s.proposal_changes, id)
            }),
        forall|id: u64| id != s.next_id ==> #[trigger] table::get(t.proposals, id) == table::get(
            s.proposals,
            id,
        ),
        table::get(s.proposals, s.next_id) is Some ==> table::get(t.proposals, s.next_id)
            == table::get(s.proposals, s.next_id),
        table::get(s.proposals, s.next_id) is None ==> {
            let card = table::get(t.proposals, s.next_id);
            &&& card is Some
            &&& card->0.surface == Surface::Organization
            &&& card->0.state == ProposalState::Proposed
            &&& card->0.by == s.me()
            &&& card->0.payload.text("op"@) == Some("restore_member"@)
            &&& card->0.payload.text("member"@) == Some(q.member)
        },
        t.pending_recovery == s.pending_recovery.filter(|r: RecoveryV| r.member != q.member).push(
            RecoveryV {
                member: q.member,
                ticketed: q.ticketed,
                key_package: q.key_package,
                reply: q.reply,
            },
        ),
        t.next_id == (if s.next_id < u64::MAX {
            s.next_id + 1
        } else {
            s.next_id as int
        }),
        t.head == s.head,
        t.replica == s.replica,
        t.identity_sk == s.identity_sk,
        s.restoring(q) == (if s.self_cosign {
            t.signing(s.next_id)
        } else {
            t
        }),
{
    let listed = StateV {
        pending_recovery: recovery::recoveries_without(s.pending_recovery, q.member).push(
            RecoveryV {
                member: q.member,
                ticketed: q.ticketed,
                key_package: q.key_package,
                reply: q.reply,
            },
        ),
        ..s
    };
    let change = s.restore_change(q);
    let t = listed.membership_announced(change);
    lemma_recoveries_without(s.pending_recovery, q.member);
    table::reading_a_put(s.proposal_changes, s.next_id, change, s.next_id);
    assert forall|id: u64| #[trigger]
        table::get(t.proposal_changes, id) == (if id == s.next_id {
            table::get(t.proposal_changes, s.next_id)
        } else {
            table::get(s.proposal_changes, id)
        }) by {
        table::reading_a_put(s.proposal_changes, s.next_id, change, id);
    }
    if table::get(s.proposals, s.next_id) is None {
        let card = table::get(t.proposals, s.next_id);
        let made = crate::governance::open_card(
            Surface::Organization,
            crate::membership::card_content(MembershipOp::Restored, q.member),
            s.me(),
        );
        assert forall|id: u64|
            #[trigger] table::get(t.proposals, id) == (if id == s.next_id {
                Some(made)
            } else {
                table::get(s.proposals, id)
            }) by {
            table::reading_a_put(s.proposals, s.next_id, made, id);
        }
        lemma_card_reads(q.member);
    }
    t
}

/// What the content of a restore's card reads as.
proof fn lemma_card_reads(member: Seq<char>)
    ensures
        crate::membership::card_content(MembershipOp::Restored, member).text("op"@) == Some(
            "restore_member"@,
        ),
        crate::membership::card_content(MembershipOp::Restored, member).text("member"@) == Some(
            member,
        ),
{
    reveal_strlit("op");
    reveal_strlit("member");
    assert("op"@.len() == 2);
    assert("member"@.len() == 6);
    reveal_with_fuel(payload::field_of, 3);
}

/// The pending recoveries without a seat's are the others, in order.
proof fn lemma_recoveries_without(list: Seq<RecoveryV>, member: Seq<char>)
    ensures
        recovery::recoveries_without(list, member) == list.filter(
            |r: RecoveryV| r.member != member,
        ),
    decreases list.len(),
{
    reveal(Seq::filter);
    if list.len() > 0 {
        lemma_recoveries_without(list.drop_last(), member);
    }
}

/// The way on from a state keeps what was to be done before.
proof fn lemma_signing_goes_on(s: StateV, id: u64)
    ensures
        silence_laws::still_to_do(s, s.signing(id)),
{
    silence_laws::lemma_signing_silent(s, id, s.next_id);
}

/// A request that is accepted is announced as it was made: the proposal names
/// the member, its identity key, the transport key and the consent that were
/// given, and the relays that were declared.
pub proof fn a_return_is_proposed_as_it_was_asked_for(s: StateV, q: RequestV)
    requires
        s.restore_refusal(q) is None,
    ensures
        ({
            let w = s.restoring(q);
            let n = s.effects.len() as int;
            &&& w.effects.len() > n
            &&& forall|i: int| 0 <= i < n ==> w.effects[i] == #[trigger] s.effects[i]
            &&& w.effects[n] == (EffectV::Send {
                body: WireV::MembershipProposed {
                    id: s.next_id,
                    op: MembershipOp::Restored,
                    member: q.member,
                    identity_pk: q.identity_pk,
                    nostr_pk: if q.nostr_pk.len() > 0 {
                        Some(q.nostr_pk)
                    } else {
                        None
                    },
                    relays: if q.relays.len() > 0 {
                        q.relays
                    } else if q.nostr_pk.len() > 0 {
                        s.founding_pool()
                    } else {
                        Seq::empty()
                    },
                    consent: if q.consent.len() > 0 {
                        Some(q.consent)
                    } else {
                        None
                    },
                },
            })
        }),
{
    let t = lemma_restore_announced(s, q);
    if s.self_cosign {
        lemma_signing_goes_on(t, s.next_id);
        let w = s.restoring(q);
        assert(w.effects[s.effects.len() as int] == t.effects[s.effects.len() as int]);
        assert forall|i: int| 0 <= i < s.effects.len() implies w.effects[i]
            == #[trigger] s.effects[i] by {
            assert(w.effects[i] == t.effects[i]);
        }
    }
}

/// Where proposers do not sign at once, the change that is registered for the
/// proposal is the one that was announced, its card names the member, and the
/// request waits for the re-key, alone of its member. What was registered or
/// carded before stays.
pub proof fn a_return_is_registered_as_it_was_announced(s: StateV, q: RequestV)
    requires
        s.restore_refusal(q) is None,
        !s.self_cosign || s.identity_sk is None,
    ensures
        ({
            let w = s.restoring(q);
            &&& table::get(w.proposal_changes, s.next_id) == Some(
                ChangeV::Membership {
                    op: MembershipOp::Restored,
                    member: q.member,
                    identity_pk: q.identity_pk,
                    nostr_pk: named(q.nostr_pk),
                    relays: relays_for(s, q),
                    consent: named(q.consent),
                },
            )
            &&& forall|id: u64|
                id != s.next_id ==> #[trigger] table::get(w.proposal_changes, id) == table::get(
                    s.proposal_changes,
                    id,
                )
            &&& forall|id: u64|
                id != s.next_id ==> #[trigger] table::get(w.proposals, id) == table::get(
                    s.proposals,
                    id,
                )
            &&& table::get(s.proposals, s.next_id) is None ==> {
                let card = table::get(w.proposals, s.next_id);
                &&& card is Some
                &&& card->0.surface == Surface::Organization
                &&& card->0.state == ProposalState::Proposed
                &&& card->0.by == s.me()
                &&& card->0.payload.text("op"@) == Some("restore_member"@)
                &&& card->0.payload.text("member"@) == Some(q.member)
            }
            &&& w.pending_recovery == s.pending_recovery.filter(
                |r: RecoveryV| r.member != q.member,
            ).push(
                RecoveryV {
                    member: q.member,
                    ticketed: q.ticketed,
                    key_package: q.key_package,
                    reply: q.reply,
                },
            )
        }),
{
    let t = lemma_restore_announced(s, q);
}

/// Where proposers sign at once, the signature is over the change that was
/// announced, at the next height.
pub proof fn a_proposer_signs_what_it_announced(s: StateV, q: RequestV)
    requires
        s.restore_refusal(q) is None,
        s.self_cosign,
        s.identity_sk is Some,
        s.head is Some,
        s.head->0.height < u64::MAX,
    ensures
        ({
            let w = s.restoring(q);
            let n = s.effects.len() as int;
            let height = (s.head->0.height + 1) as u64;
            &&& w.effects.len() > n + 1
            &&& w.effects[n + 1] == (EffectV::Send {
                body: WireV::Approved {
                    id: s.next_id,
                    by: s.me(),
                    height,
                    sig: identity::signature_text(
                        s.identity_sk->0,
                        canonical::approval_bytes_of(
                            s.rid(),
                            height,
                            ChangeV::Membership {
                                op: MembershipOp::Restored,
                                member: q.member,
                                identity_pk: q.identity_pk,
                                nostr_pk: named(q.nostr_pk),
                                relays: relays_for(s, q),
                                consent: named(q.consent),
                            },
                        ),
                    ),
                },
            })
        }),
{
    let t = lemma_restore_announced(s, q);
    let id = s.next_id;
    assert(t.can_sign(id));
    let voiced = t.voicing(id);
    lemma_committing_goes_on(voiced, id);
    let n = s.effects.len() as int;
    assert(voiced.effects.len() == n + 2);
    assert(s.restoring(q).effects[n + 1] == voiced.effects[n + 1]);
}

/// Sealing what is complete keeps what was to be done before.
proof fn lemma_committing_goes_on(s: StateV, id: u64)
    ensures
        silence_laws::still_to_do(s, s.committing(id)),
{
    silence_laws::lemma_committing_silent(s, id, s.next_id);
}

/// A consent that was accepted with the request is a consent to the change
/// that is announced: it verifies under the member's key over the republic,
/// the member, the key and the transport key that the announcement names.
pub proof fn an_accepted_consent_carries_over(s: StateV, q: RequestV)
    requires
        s.restore_refusal(q) is None,
        q.consent.len() > 0,
    ensures
        s.restoring(q).effects[s.effects.len() as int] matches EffectV::Send {
            body: WireV::MembershipProposed { member, identity_pk, nostr_pk, consent, .. },
        } && consent is Some && identity::verifies(
            identity_pk,
            canonical::restore_consent_bytes_of(
                s.rid(),
                member,
                identity_pk,
                match nostr_pk {
                    Some(k) => k,
                    None => Seq::empty(),
                },
            ),
            consent->0,
        ),
{
    a_return_is_proposed_as_it_was_asked_for(s, q);
    if q.nostr_pk.len() == 0 {
        assert(q.nostr_pk =~= Seq::empty());
    }
}

/// A request is accepted exactly where the member has a seat under the key it
/// names, its proof of the seat verifies under that key, so does its consent
/// where it gives one, and no other member is left without a relay in common
/// where it declares some.
pub proof fn a_return_is_accepted_exactly_where_it_is_proved(s: StateV, q: RequestV)
    ensures
        s.restore_refusal(q) is None <==> {
            &&& s.replica is Some
            &&& export_laws::seated(s.replica->0.identities, q.member, q.identity_pk)
            &&& identity::verifies(
                q.identity_pk,
                canonical::seat_proof_bytes_of(
                    q.ticket,
                    q.key_package,
                    s.rid(),
                    q.nostr_pk,
                    q.relays,
                ),
                q.seat_proof,
            )
            &&& q.consent.len() > 0 ==> identity::verifies(
                q.identity_pk,
                canonical::restore_consent_bytes_of(s.rid(), q.member, q.identity_pk, q.nostr_pk),
                q.consent,
            )
            &&& q.relays.len() > 0 ==> forall|i: int|
                0 <= i < s.roster().len() && #[trigger] s.roster()[i] != q.member && s.relays_of(
                    s.roster()[i],
                ).len() > 0 ==> exists|a: int, b: int|
                    0 <= a < q.relays.len() && 0 <= b < s.relays_of(s.roster()[i]).len()
                        && #[trigger] q.relays[a] == #[trigger] s.relays_of(s.roster()[i])[b]
        },
{
    if s.replica is Some {
        export_laws::a_restore_needs_its_own_seat(
            s.replica->0.identities,
            MembershipOp::Restored,
            q.member,
            q.identity_pk,
        );
    }
    assert forall|i: int| 0 <= i < s.roster().len() implies s.strands(
        q.member,
        q.relays,
        #[trigger] s.roster()[i],
    ) == !(s.roster()[i] != q.member && s.relays_of(s.roster()[i]).len() > 0 ==> exists|
        a: int,
        b: int,
    |
        0 <= a < q.relays.len() && 0 <= b < s.relays_of(s.roster()[i]).len()
            && #[trigger] q.relays[a] == #[trigger] s.relays_of(s.roster()[i])[b]) by {
        lemma_share(q.relays, s.relays_of(s.roster()[i]));
    }
}

/// Two lists share an entry where some entry of one is one of the other.
proof fn lemma_share(x: Seq<Seq<char>>, y: Seq<Seq<char>>)
    ensures
        history::share_one(x, y) <==> exists|a: int, b: int|
            0 <= a < x.len() && 0 <= b < y.len() && #[trigger] x[a] == #[trigger] y[b],
{
    if history::share_one(x, y) {
        let a = choose|a: int| 0 <= a < x.len() && y.contains(#[trigger] x[a]);
        let b = choose|b: int| 0 <= b < y.len() && y[b] == x[a];
        assert(x[a] == y[b]);
    }
    if exists|a: int, b: int|
        0 <= a < x.len() && 0 <= b < y.len() && #[trigger] x[a] == #[trigger] y[b] {
        let (a, b) = choose|a: int, b: int|
            0 <= a < x.len() && 0 <= b < y.len() && #[trigger] x[a] == #[trigger] y[b];
        assert(y.contains(x[a]));
    }
}

/// A request that is refused changes nothing.
pub proof fn a_refused_return_changes_nothing(s: StateV, q: RequestV)
    requires
        s.restore_refusal(q) is Some,
    ensures
        s.restoring(q) == s,
{
}

/// A holder attests by itself only a restore that is still open, of a member
/// other than itself, that keeps the member's key and that the member
/// consented to; a transport key that it brings is well written and was never
/// a seat's.
pub proof fn only_a_consented_restore_is_attested(s: StateV, id: u64, well_written: bool)
    ensures
        s.attestable(id, well_written) ==> {
            &&& s.head is Some
            &&& table::get(s.proposal_changes, id) matches Some(
                ChangeV::Membership { op, member, identity_pk, nostr_pk, consent, .. },
            ) && {
                &&& op == MembershipOp::Restored
                &&& member != s.me()
                &&& export_laws::seated(s.head->0.identities, member, identity_pk)
                &&& consent is Some
                &&& identity::verifies(
                    identity_pk,
                    canonical::restore_consent_bytes_of(
                        s.rid(),
                        member,
                        identity_pk,
                        match nostr_pk {
                            Some(k) => k,
                            None => Seq::empty(),
                        },
                    ),
                    consent->0,
                )
                &&& nostr_pk is Some ==> well_written
                &&& nostr_pk is Some && nostr_pk->0.len() > 0 ==> !once_a_key(s, nostr_pk->0)
            }
            &&& table::get(s.proposals, id) is Some ==> table::get(s.proposals, id)->0.state
                == ProposalState::Proposed
        },
        !s.attestable(id, well_written) ==> s.attesting(id, well_written) == s,
{
    if s.attestable(id, well_written) {
        match table::get(s.proposal_changes, id) {
            Some(ChangeV::Membership { member, identity_pk, .. }) => {
                export_laws::a_restore_needs_its_own_seat(
                    s.head->0.identities,
                    MembershipOp::Restored,
                    member,
                    identity_pk,
                );
            },
            _ => {},
        }
    }
}

/// Was that ever a seat's transport key: at the founding, by a restore in a
/// held block, or by one that the summary stands for?
pub open spec fn once_a_key(s: StateV, pk: Seq<char>) -> bool {
    ||| s.replica is Some && exists|i: int|
        0 <= i < s.replica->0.identities.len() && (
        #[trigger] s.replica->0.identities[i]).nostr_pk == pk
    ||| exists|i: int|
        0 <= i < s.blocks.len() && ((#[trigger] s.blocks[i]).change matches ChangeV::Membership {
            op,
            nostr_pk,
            ..
        } && op == MembershipOp::Restored && nostr_pk == Some(pk))
    ||| s.checkpoint_blob is Some && exists|i: int|
        0 <= i < s.checkpoint_blob->0.anchors.len() && (
        #[trigger] s.checkpoint_blob->0.anchors[i]).nostr_pk == pk
}

/// A consent that a coordinator accepted is one that every other holder can
/// attest: a holder of the same republic and roster that registered the change
/// as it was announced, to whom the transport key is new, signs it by itself.
pub proof fn an_accepted_return_can_be_attested(s: StateV, q: RequestV, t: StateV)
    requires
        s.restore_refusal(q) is None,
        q.consent.len() > 0,
        t.head is Some,
        s.replica is Some,
        t.rid() == s.rid(),
        t.head->0.identities == s.replica->0.identities,
        t.me() != q.member,
        table::get(t.proposals, s.next_id) is None,
        q.nostr_pk.len() > 0 ==> !once_a_key(t, q.nostr_pk),
        s.restoring(q).effects[s.effects.len() as int] matches EffectV::Send {
            body: WireV::MembershipProposed {
                id,
                op,
                member,
                identity_pk,
                nostr_pk,
                relays,
                consent,
            },
        } && table::get(t.proposal_changes, id) == Some(
            ChangeV::Membership { op, member, identity_pk, nostr_pk, relays, consent },
        ),
    ensures
        t.attestable(s.next_id, true),
{
    a_return_is_proposed_as_it_was_asked_for(s, q);
    if q.nostr_pk.len() == 0 {
        assert(q.nostr_pk =~= Seq::empty());
    }
    if q.nostr_pk.len() > 0 && t.anchor_seen(q.nostr_pk) {
        if crate::membership::block_has_key(t.blocks, q.nostr_pk) {
            let i = choose|i: int|
                0 <= i < t.blocks.len() && crate::membership::re_anchors(
                    (#[trigger] t.blocks[i]).change,
                    q.nostr_pk,
                );
            assert(t.blocks[i].change matches ChangeV::Membership { op, nostr_pk, .. } && op
                == MembershipOp::Restored && nostr_pk == Some(q.nostr_pk));
        }
    }
}

/// The re-key of a returning member is handed out for the request that waits
/// under its name, with the key package, the way and the address that it gave,
/// and the request waits no more. Every other request goes on waiting.
pub proof fn a_return_is_rekeyed_from_its_request(s: StateV, k: int)
    requires
        0 <= k < s.pending_recovery.len(),
        forall|j: int|
            0 <= j < k ==> (#[trigger] s.pending_recovery[j]).member
                != s.pending_recovery[k].member,
    ensures
        ({
            let p = s.pending_recovery[k];
            let w = s.rekeying(p.member);
            &&& w.pending_recovery == s.pending_recovery.filter(
                |r: RecoveryV| r.member != p.member,
            )
            &&& match identity::unhex(p.key_package) {
                Some(bytes) => w.effects == s.effects.push(
                    EffectV::Rekey {
                        member: p.member,
                        ticketed: p.ticketed,
                        key_package: bytes,
                        reply: p.reply,
                    },
                ),
                None => w.effects == s.effects,
            }
            &&& w == StateV { pending_recovery: w.pending_recovery, effects: w.effects, ..s }
        }),
{
    lemma_recoveries_without(s.pending_recovery, s.pending_recovery[k].member);
    lemma_recovery_at(s.pending_recovery, k);
}

/// The request of a seat is the first under its name.
proof fn lemma_recovery_at(list: Seq<RecoveryV>, k: int)
    requires
        0 <= k < list.len(),
        forall|j: int| 0 <= j < k ==> (#[trigger] list[j]).member != list[k].member,
    ensures
        recovery::recovery_of(list, list[k].member) == Some(list[k]),
    decreases list.len(),
{
    if k > 0 {
        assert(list[0].member != list[k].member);
        let rest = list.skip(1);
        assert(rest[k - 1] == list[k]);
        assert forall|j: int| 0 <= j < k - 1 implies (#[trigger] rest[j]).member
            != rest[k - 1].member by {
            assert(rest[j] == list[j + 1]);
        }
        lemma_recovery_at(rest, k - 1);
    }
}

/// A seat for which no request waits is not re-keyed.
pub proof fn nobody_is_rekeyed_unasked(s: StateV, member: Seq<char>)
    requires
        forall|j: int|
            0 <= j < s.pending_recovery.len() ==> (#[trigger] s.pending_recovery[j]).member
                != member,
    ensures
        s.rekeying(member) == s,
{
    lemma_no_recovery(s.pending_recovery, member);
}

/// A seat without a request has none.
proof fn lemma_no_recovery(list: Seq<RecoveryV>, member: Seq<char>)
    requires
        forall|j: int| 0 <= j < list.len() ==> (#[trigger] list[j]).member != member,
    ensures
        recovery::recovery_of(list, member) is None,
    decreases list.len(),
{
    if list.len() > 0 {
        assert(list[0].member != member);
        assert forall|j: int| 0 <= j < list.skip(1).len() implies (
        #[trigger] list.skip(1)[j]).member != member by {
            assert(list.skip(1)[j] == list[j + 1]);
        }
        lemma_no_recovery(list.skip(1), member);
    }
}

/// The names of the signers are those on the signatures, each once and in
/// order.
proof fn lemma_signer_set(sigs: Seq<crate::model::AttestationV>)
    ensures
        text::ascending(recovery::signer_set(sigs)),
        forall|m: Seq<char>| #[trigger]
            recovery::signer_set(sigs).contains(m) <==> exists|i: int|
                0 <= i < sigs.len() && (#[trigger] sigs[i]).member == m,
    decreases sigs.len(),
{
    let out = recovery::signer_set(sigs);
    if sigs.len() > 0 {
        let front = sigs.drop_last();
        lemma_signer_set(front);
        text::lemma_insert_name(recovery::signer_set(front), sigs.last().member);
        assert forall|m: Seq<char>| #[trigger] out.contains(m) <==> exists|i: int|
            0 <= i < sigs.len() && (#[trigger] sigs[i]).member == m by {
            if recovery::signer_set(front).contains(m) {
                let i = choose|i: int| 0 <= i < front.len() && (#[trigger] front[i]).member == m;
                assert(sigs[i].member == m);
            }
            if m == sigs.last().member {
                assert(sigs[sigs.len() - 1].member == m);
            }
            if exists|i: int| 0 <= i < sigs.len() && (#[trigger] sigs[i]).member == m {
                let i = choose|i: int| 0 <= i < sigs.len() && (#[trigger] sigs[i]).member == m;
                if i < front.len() {
                    assert(front[i].member == m);
                }
            }
        }
    }
}

/// What the member that comes back is shown of a sealed restore: its name, how
/// many voices were needed, the seats, and as approving exactly those who
/// signed the block, and itself where it consented; it is sent to the key that
/// the restore gave it.
pub proof fn a_returning_member_is_shown_who_approved(s: StateV, block: BlockV)
    requires
        s.final_progress(block) is Some,
    ensures
        ({
            let r = s.final_progress(block)->0;
            &&& s.head is Some
            &&& r.need == s.head->0.rule_m
            &&& r.roster.len() == s.head->0.identities.len()
            &&& forall|i: int|
                0 <= i < r.roster.len() ==> #[trigger] r.roster[i]
                    == s.head->0.identities[i].member
            &&& block.change matches ChangeV::Membership { op, member, nostr_pk, consent, .. } && {
                &&& op == MembershipOp::Restored
                &&& r.member == member
                &&& r.to == nostr_pk
                &&& text::ascending(r.approved)
                &&& forall|m: Seq<char>| #[trigger]
                    r.approved.contains(m) <==> ((consent is Some && m == member) || exists|i: int|
                        0 <= i < block.sigs.len() && (#[trigger] block.sigs[i]).member == m)
            }
        }),
{
    lemma_signer_set(block.sigs);
    let voices = recovery::signer_set(block.sigs);
    let member = block.change->Membership_member;
    text::lemma_insert_name(voices, member);
    let r = s.final_progress(block)->0;
    assert forall|m: Seq<char>| #[trigger]
        r.approved.contains(m) <==> ((block.change->Membership_consent is Some && m == member)
            || exists|i: int| 0 <= i < block.sigs.len() && (#[trigger] block.sigs[i]).member == m) by {
        assert(voices.contains(m) <==> exists|i: int|
            0 <= i < block.sigs.len() && (#[trigger] block.sigs[i]).member == m);
    }
}

/// A re-key over the relays is planned for the key that the member is
/// addressed at and over the transport's own relays, as many as are allowed,
/// the first ones; it is refused where a relay, a route, a transport, keys or
/// an address is missing, and nowhere else.
pub proof fn a_rekey_goes_to_the_members_address(s: StateV, member: Seq<char>, facts: FactsV)
    ensures
        s.rekey_plan(member, facts) is Ok <==> {
            &&& facts.dialable.len() > 0
            &&& facts.has_route
            &&& s.live_relays is Some
            &&& facts.keys_usable
            &&& s.address_of(member).len() > 0
        },
        s.rekey_plan(member, facts) matches Ok(plan) ==> {
            &&& plan.to == s.address_of(member)
            &&& plan.relays.len() <= facts.max_relays
            &&& plan.relays.len() == facts.max_relays || plan.relays.len()
                == s.live_relays->0.len()
            &&& forall|i: int|
                0 <= i < plan.relays.len() ==> #[trigger] plan.relays[i] == s.live_relays->0[i]
        },
        s.rekey_plan(member, facts) matches Err(e) ==> match e {
            RekeyRefusal::NoRelay => facts.dialable.len() == 0,
            RekeyRefusal::NoRoute => !facts.has_route,
            RekeyRefusal::NoTransport => s.live_relays is None,
            RekeyRefusal::BadKeys => !facts.keys_usable,
            RekeyRefusal::NoAddress => s.address_of(member).len() == 0,
        },
{
}

/// After a re-key over the relays the commit goes out first, then what roots
/// the chain for the member, then the line that tells of its return.
pub proof fn the_commit_goes_out_first(
    s: StateV,
    ticketed: bool,
    member: Seq<char>,
    commit: Seq<u8>,
    stamp: u64,
    blob_fits: bool,
)
    ensures
        ({
            let w = s.rekeyed_over_relays(ticketed, member, commit, stamp, blob_fits);
            let n = s.effects.len() as int;
            &&& w.effects.len() > n + 2
            &&& forall|i: int| 0 <= i < n ==> w.effects[i] == #[trigger] s.effects[i]
            &&& w.effects[n] == (EffectV::Send {
                body: WireV::MlsCommit { commit: identity::hex_text(commit), stamp },
            })
            &&& w.effects[n + 1] == (EffectV::ResetAcceptWindow { member })
            &&& s.blocks.len() > 0 ==> w.effects[w.effects.len() - 2] == (EffectV::Send {
                body: WireV::Committed { block: s.blocks[0] },
            })
            &&& s.blocks.len() > 0 && s.checkpoint_blob is Some && blob_fits ==> w.effects[n + 2]
                == (EffectV::Send {
                body: WireV::CheckpointServed { blob: s.checkpoint_blob->0 },
            })
            &&& w.effects.last() is RejoinNote
        }),
        ({
            let w = s.rekeyed_over_mesh(ticketed, member, commit);
            let n = s.effects.len() as int;
            &&& w.effects.len() == n + 3
            &&& w.effects[n] == (EffectV::Send {
                body: WireV::MlsCommit { commit: identity::hex_text(commit), stamp: 0 },
            })
            &&& w.effects[n + 1] is RejoinNote
            &&& w.effects[n + 2] == (EffectV::AcceptAnnounce { member })
        }),
{
    let sent = s.recording(
        WireV::MlsCommit { commit: identity::hex_text(commit), stamp },
    ).doing(EffectV::ResetAcceptWindow { member });
    let bodies = sent.bootstrap(blob_fits);
    reveal_with_fuel(StateV::recording_each, 3);
    if bodies.len() == 2 {
        assert(bodies.drop_last().drop_last() =~= Seq::empty());
        assert(bodies.drop_last().last() == bodies[0]);
    } else if bodies.len() == 1 {
        assert(bodies.drop_last() =~= Seq::empty());
    }
}

/// The group is told how a member came back: by a recovery where it had a
/// ticket, and from a restored backup where it had none.
pub proof fn a_return_is_told_as_it_happened(
    s: StateV,
    ticketed: bool,
    member: Seq<char>,
    commit: Seq<u8>,
    stamp: u64,
    blob_fits: bool,
)
    ensures
        ({
            let line = if ticketed {
                "🔑 "@ + member + " rejoined the republic after recovery"@
            } else {
                "🔁 "@ + member + " reconnected from a restored backup"@
            };
            let over_relays = s.rekeyed_over_relays(ticketed, member, commit, stamp, blob_fits);
            let over_mesh = s.rekeyed_over_mesh(ticketed, member, commit);
            &&& over_relays.effects.last() == (EffectV::RejoinNote { line })
            &&& over_mesh.effects[over_mesh.effects.len() - 2] == (EffectV::RejoinNote { line })
        }),
{
}

/// A request is refused for the first reason that holds: there is no seat of
/// that name, its key is another one, the proof of the seat does not verify,
/// the consent does not, or a declared relay reaches nobody. The refusal names
/// what it is about.
pub proof fn a_refusal_names_its_reason(s: StateV, q: RequestV)
    ensures
        ({
            let seat = match s.replica {
                Some(r) => signers::seat_of(r.identities, q.member),
                None => None,
            };
            let proof_bytes = canonical::seat_proof_bytes_of(
                q.ticket,
                q.key_package,
                s.rid(),
                q.nostr_pk,
                q.relays,
            );
            let consent_bytes = canonical::restore_consent_bytes_of(
                s.rid(),
                q.member,
                q.identity_pk,
                q.nostr_pk,
            );
            &&& seat is None ==> s.restore_refusal(q) == Some("no anchored seat for "@ + q.member)
            &&& seat is Some && seat->0.identity_pk != q.identity_pk ==> s.restore_refusal(q)
                == Some("recovery must re-derive the seat's own identity key"@)
            &&& seat is Some && seat->0.identity_pk == q.identity_pk && !identity::verifies(
                q.identity_pk,
                proof_bytes,
                q.seat_proof,
            ) ==> s.restore_refusal(q) == Some(
                "seat proof for "@ + q.member + " does not verify"@,
            )
            &&& seat is Some && seat->0.identity_pk == q.identity_pk && identity::verifies(
                q.identity_pk,
                proof_bytes,
                q.seat_proof,
            ) && q.consent.len() > 0 && !identity::verifies(
                q.identity_pk,
                consent_bytes,
                q.consent,
            ) ==> s.restore_refusal(q) == Some(
                "restore consent for "@ + q.member + " does not verify"@,
            )
        }),
{
}

/// A restore that a block brings lets the member announce itself at once, shows
/// it the completed vote where this holder coordinates its return, and re-keys
/// it from its request; every other member's cooldown stays.
pub proof fn a_restored_member_may_announce_itself(s: StateV, block: BlockV, other: Seq<char>)
    requires
        block.change is Membership,
        block.change->Membership_op == MembershipOp::Restored,
    ensures
        ({
            let w = s.block_settled(block);
            let member = block.change->Membership_member;
            let free = s.membership_settled(block.change);
            &&& !w.announce_cooldown.contains(member)
            &&& other != member ==> (w.announce_cooldown.contains(other)
                <==> free.announce_cooldown.contains(other))
            &&& (forall|k: int|
                0 <= k < free.pending_recovery.len() ==> (
                #[trigger] free.pending_recovery[k]).member != member) ==> w.effects
                == free.effects
            &&& forall|k: int|
                0 <= k < free.pending_recovery.len() && (
                #[trigger] free.pending_recovery[k]).member == member && (forall|j: int|
                    0 <= j < k ==> (#[trigger] free.pending_recovery[j]).member != member)
                    && free.head is Some ==> {
                    let n = free.effects.len() as int;
                    &&& w.effects.len() > n
                    &&& w.effects[n] matches EffectV::RecoverProgress { report }
                        && report.member == member && report.need == free.head->0.rule_m
                        && report.to == block.change->Membership_nostr_pk
                    &&& identity::unhex(free.pending_recovery[k].key_package) matches Some(bytes)
                        ==> w.effects == free.effects.push(w.effects[n]).push(
                        EffectV::Rekey {
                            member,
                            ticketed: free.pending_recovery[k].ticketed,
                            key_package: bytes,
                            reply: free.pending_recovery[k].reply,
                        },
                    )
                }
        }),
{
    let member = block.change->Membership_member;
    let free = s.membership_settled(block.change);
    crate::chat_laws::lemma_names_without(free.announce_cooldown, member);
    if forall|k: int|
        0 <= k < free.pending_recovery.len() ==> (#[trigger] free.pending_recovery[k]).member
            != member {
        lemma_no_recovery(free.pending_recovery, member);
    }
    assert forall|k: int|
        0 <= k < free.pending_recovery.len() && (
        #[trigger] free.pending_recovery[k]).member == member && (forall|j: int|
            0 <= j < k ==> (
            #[trigger] free.pending_recovery[j]).member != member) implies recovery::recovery_of(
        free.pending_recovery,
        member,
    ) == Some(free.pending_recovery[k]) by {
        lemma_recovery_at(free.pending_recovery, k);
    }
}

} // verus!
