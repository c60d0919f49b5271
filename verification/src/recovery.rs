//! A returning member's re-admission as its coordinator sees it: the pending
//! request, the progress reports and the re-key.

use crate::identity;
use crate::identity::hex_decode;
use crate::model::{
    AttestationV, BlockV, ChainBlock, ChainChange, ChangeV, MembershipOp, RosterAttestation,
};
use crate::signers;
use crate::signers::seat_names;
use crate::state::{
    Effect, EffectV, PendingRecovery, ProgressV, RecoverProgressReport, RecoveryV, State, StateV,
};
use crate::table;
use crate::text;
use crate::text::{add_name, same_text};
use vstd::prelude::*;
use vstd::string::*;

verus! {

/// The pending recovery of that seat, if there is one.
pub open spec fn recovery_of(list: Seq<RecoveryV>, member: Seq<char>) -> Option<RecoveryV>
    decreases list.len(),
{
    if list.len() == 0 {
        None
    } else if list[0].member == member {
        Some(list[0])
    } else {
        recovery_of(list.skip(1), member)
    }
}

/// The pending recoveries without that seat's.
pub open spec fn recoveries_without(list: Seq<RecoveryV>, member: Seq<char>) -> Seq<RecoveryV>
    decreases list.len(),
{
    if list.len() == 0 {
        list
    } else if list.last().member == member {
        recoveries_without(list.drop_last(), member)
    } else {
        recoveries_without(list.drop_last(), member).push(list.last())
    }
}

/// The pending recovery of that seat, if there is one.
pub fn find_recovery<'a>(list: &'a Vec<PendingRecovery>, member: &str) -> (r: Option<
    &'a PendingRecovery,
>)
    ensures
        match r {
            Some(p) => recovery_of(list.deep_view(), member@) == Some(p.deep_view()),
            None => recovery_of(list.deep_view(), member@) is None,
        },
{
    let ghost all = list.deep_view();
    let mut i: usize = 0;
    assert(all.skip(0) =~= all);
    while i < list.len()
        invariant
            i <= list.len(),
            all == list.deep_view(),
            recovery_of(all, member@) == recovery_of(all.skip(i as int), member@),
        decreases list.len() - i,
    {
        assert(all.skip(i as int)[0] == list@[i as int].deep_view());
        if same_text(list[i].member.as_str(), member) {
            return Some(&list[i]);
        }
        assert(all.skip(i as int).skip(1) =~= all.skip(i + 1));
        i = i + 1;
    }
    None
}

/// The pending recoveries without that seat's.
pub fn drop_recovery(list: &Vec<PendingRecovery>, member: &str) -> (r: Vec<PendingRecovery>)
    ensures
        r.deep_view() == recoveries_without(list.deep_view(), member@),
{
    let ghost all = list.deep_view();
    let mut out: Vec<PendingRecovery> = Vec::new();
    let mut i: usize = 0;
    assert(all.take(0) =~= Seq::empty());
    assert(out.deep_view() =~= Seq::empty());
    while i < list.len()
        invariant
            i <= list.len(),
            all == list.deep_view(),
            out.deep_view() == recoveries_without(all.take(i as int), member@),
        decreases list.len() - i,
    {
        let ghost done = out.deep_view();
        proof {
            assert(all.take(i + 1).drop_last() =~= all.take(i as int));
            assert(all.take(i + 1).last() == list@[i as int].deep_view());
        }
        if !same_text(list[i].member.as_str(), member) {
            out.push(list[i].clone());
            assert(out.deep_view() =~= done.push(list@[i as int].deep_view()));
        }
        i = i + 1;
    }
    assert(all.take(i as int) =~= all);
    out
}

/// The names of the signers, ascending, each once.
pub open spec fn signer_set(sigs: Seq<AttestationV>) -> Seq<Seq<char>>
    decreases sigs.len(),
{
    if sigs.len() == 0 {
        Seq::empty()
    } else {
        text::insert_name(signer_set(sigs.drop_last()), sigs.last().member)
    }
}

/// The names of the signers, ascending, each once.
pub fn signers_once(sigs: &Vec<RosterAttestation>) -> (r: Vec<String>)
    ensures
        r.deep_view() == signer_set(sigs.deep_view()),
{
    let ghost all = sigs.deep_view();
    let mut out: Vec<String> = Vec::new();
    let mut i: usize = 0;
    assert(all.take(0) =~= Seq::empty());
    assert(out.deep_view() =~= Seq::empty());
    while i < sigs.len()
        invariant
            i <= sigs.len(),
            all == sigs.deep_view(),
            out.deep_view() == signer_set(all.take(i as int)),
        decreases sigs.len() - i,
    {
        proof {
            assert(all.take(i + 1).drop_last() =~= all.take(i as int));
            assert(all.take(i + 1).last() == sigs@[i as int].deep_view());
        }
        add_name(&mut out, &sigs[i].member);
        i = i + 1;
    }
    assert(all.take(i as int) =~= all);
    out
}

/// The voices with the consenting seat's, where the change carries a consent.
pub open spec fn voices_and_consent(
    voices: Seq<Seq<char>>,
    member: Seq<char>,
    consent: Option<Seq<char>>,
) -> Seq<Seq<char>> {
    if consent is Some {
        text::insert_name(voices, member)
    } else {
        voices
    }
}

impl StateV {
    /// How far the restore of `change` has come with those voices; none where
    /// this holder does not coordinate it.
    pub open spec fn progress(self, change: ChangeV, voices: Seq<Seq<char>>) -> Option<ProgressV> {
        match (change, self.head) {
            (
                ChangeV::Membership { op: MembershipOp::Restored, member, nostr_pk, consent, .. },
                Some(head),
            ) => if recovery_of(self.pending_recovery, member) is Some {
                Some(
                    ProgressV {
                        member,
                        need: head.rule_m as u32,
                        roster: signers::seat_names_of(head.identities),
                        approved: voices_and_consent(voices, member, consent),
                        to: nostr_pk,
                    },
                )
            } else {
                None
            },
            _ => None,
        }
    }

    /// How far the vote on `id` has come, where it is a restore that this
    /// holder coordinates: the verified signatures and the consent count.
    pub open spec fn live_progress(self, id: u64) -> Option<ProgressV> {
        match table::get(self.proposal_changes, id) {
            Some(change) => self.progress(
                change,
                match table::get(self.pending_sigs, id) {
                    Some(p) => p.verified,
                    None => Seq::empty(),
                },
            ),
            None => None,
        }
    }

    /// The completed vote of a sealed restore: the block's own signers and the
    /// consent.
    pub open spec fn final_progress(self, block: BlockV) -> Option<ProgressV> {
        self.progress(block.change, signer_set(block.sigs))
    }

    /// The re-key of a returning member handed to the host: its request is
    /// taken off the list, and a key package that is no hex goes no further.
    pub open spec fn rekeying(self, member: Seq<char>) -> StateV {
        match recovery_of(self.pending_recovery, member) {
            None => self,
            Some(p) => {
                let taken = StateV {
                    pending_recovery: recoveries_without(self.pending_recovery, member),
                    ..self
                };
                match identity::unhex(p.key_package) {
                    None => taken,
                    Some(key_package) => taken.doing(
                        EffectV::Rekey {
                            member,
                            ticketed: p.ticketed,
                            key_package,
                            reply: p.reply,
                        },
                    ),
                }
            },
        }
    }
}

impl State {
    /// How far the restore of `change` has come with those voices.
    fn progress_report(&self, change: &ChainChange, voices: Vec<String>) -> (r: Option<
        RecoverProgressReport,
    >)
        ensures
            r.deep_view() == self.deep_view().progress(change.deep_view(), voices.deep_view()),
    {
        let mut approved = voices;
        match (change, &self.head) {
            (ChainChange::Membership { op, member, nostr_pk, consent, .. }, Some(head)) => {
                if *op != MembershipOp::Restored || find_recovery(
                    &self.pending_recovery,
                    member.as_str(),
                ).is_none() {
                    return None;
                }
                if consent.is_some() {
                    add_name(&mut approved, member);
                }
                Some(
                    RecoverProgressReport {
                        member: member.clone(),
                        need: head.rule_m as u32,
                        roster: seat_names(&head.identities),
                        approved,
                        to: nostr_pk.clone(),
                    },
                )
            },
            _ => None,
        }
    }

    /// How far the vote on `id` has come, where it is a restore that this
    /// holder coordinates.
    pub fn recover_progress_for(&self, id: u64) -> (r: Option<RecoverProgressReport>)
        ensures
            r.deep_view() == self.deep_view().live_progress(id),
    {
        let voices: Vec<String> = match self.pending_sigs.get(id) {
            Some(p) => p.verified.clone(),
            None => Vec::new(),
        };
        assert(table::get(self.deep_view().pending_sigs, id) is None ==> voices.deep_view()
            =~= Seq::empty());
        match self.proposal_changes.get(id) {
            Some(change) => self.progress_report(change, voices),
            None => None,
        }
    }

    /// The completed vote of a sealed restore that this holder coordinates.
    pub fn recover_complete_report(&self, block: &ChainBlock) -> (r: Option<RecoverProgressReport>)
        ensures
            r.deep_view() == self.deep_view().final_progress(block.deep_view()),
    {
        let voices = signers_once(&block.sigs);
        self.progress_report(&block.change, voices)
    }

    /// Hands the re-key of a returning member to the host once its block
    /// committed.
    pub fn coordinator_rekey(&mut self, member: &str)
        ensures
            final(self).deep_view() == old(self).deep_view().rekeying(member@),
    {
        let pending: PendingRecovery = match find_recovery(&self.pending_recovery, member) {
            Some(p) => p.clone(),
            None => {
                return;
            },
        };
        self.pending_recovery = drop_recovery(&self.pending_recovery, member);
        match hex_decode(pending.key_package.as_str()) {
            None => {},
            Some(key_package) => {
                assert(key_package.deep_view() =~= key_package@);
                self.doing(
                    Effect::Rekey {
                        member: member.to_owned(),
                        ticketed: pending.ticketed,
                        key_package,
                        reply: pending.reply,
                    },
                );
            },
        }
    }
}

} // verus!
