//! The coordinator's re-key after a re-admission committed: what must be in
//! place before the group is touched, and what goes out once it was.

use crate::identity;
use crate::identity::hex_encode;
use crate::state::{Effect, EffectV, State, StateV, WireV, WorkspaceEvent};
use vstd::prelude::*;
use vstd::string::*;

verus! {

/// Why a re-key could not be delivered. It is not begun: a group that was
/// re-keyed cannot be put back.
#[derive(Debug, Clone, Copy, PartialEq, Eq, Structural)]
pub enum RekeyRefusal {
    /// No relay of the republic can be dialled.
    NoRelay,
    /// There is no way to dial one.
    NoRoute,
    /// The workspace has no transport of this kind.
    NoTransport,
    /// The transport keys are of no use.
    BadKeys,
    /// The restored seat has no transport key to address.
    NoAddress,
}

/// What the host found when it looked at its transport.
#[derive(Debug)]
pub struct TransportFacts {
    /// The relays of the republic that can be dialled.
    pub dialable: Vec<String>,
    /// Whether there is a way to dial.
    pub has_route: bool,
    /// Whether the transport keys are usable.
    pub keys_usable: bool,
    /// How many relays a welcome can carry.
    pub max_relays: usize,
}

/// The model of [`TransportFacts`].
pub struct FactsV {
    pub dialable: Seq<Seq<char>>,
    pub has_route: bool,
    pub keys_usable: bool,
    pub max_relays: usize,
}

impl DeepView for TransportFacts {
    type V = FactsV;

    open spec fn deep_view(&self) -> FactsV {
        FactsV {
            dialable: self.dialable.deep_view(),
            has_route: self.has_route,
            keys_usable: self.keys_usable,
            max_relays: self.max_relays,
        }
    }
}

/// How a re-key will be delivered.
#[derive(Debug)]
pub struct RekeyPlan {
    /// The returning member's new transport key.
    pub to: String,
    /// The relays that the welcome names: what the group ratified, not what
    /// this holder happens to reach.
    pub relays: Vec<String>,
}

/// The model of [`RekeyPlan`].
pub struct PlanV {
    pub to: Seq<char>,
    pub relays: Seq<Seq<char>>,
}

impl DeepView for RekeyPlan {
    type V = PlanV;

    open spec fn deep_view(&self) -> PlanV {
        PlanV { to: self.to@, relays: self.relays.deep_view() }
    }
}

/// What a re-key over the relays gave: all that the wire needs.
#[derive(Debug)]
pub struct NostrRekey {
    /// The raw commit: whoever is to reach the new epoch needs it as it is.
    pub commit: Vec<u8>,
    /// What puts the returning member back into the group.
    pub welcome: Vec<u8>,
    /// The exporter secret of the epoch that was left: the members who are to
    /// read the commit are still there.
    pub prev_exporter: [u8; 32],
    /// The stamp that the commit was made with, and is published at.
    pub stamp: u64,
}

/// What a re-key over the relays gave. `restored` is the commit and the
/// welcome that the group made at `stamp`, or why it made none, and `ring` the
/// exporter secrets of the epochs it left, newest first. Without one of those
/// nobody could open the commit.
pub fn nostr_rekey(
    restored: Result<(Vec<u8>, Vec<u8>), String>,
    ring: &Vec<[u8; 32]>,
    stamp: u64,
) -> (r: Result<NostrRekey, String>)
    ensures
        match (restored, r) {
            (Err(why), Err(e)) => e@ == why@,
            (Err(why), Ok(k)) => false,
            (Ok(made), Err(e)) => {
                &&& ring.len() == 0
                &&& e@ == "the re-key left no previous exporter - the commit would seal opaque"@
            },
            (Ok(made), Ok(k)) => {
                &&& ring.len() > 0
                &&& k.commit@ == made.0@
                &&& k.welcome@ == made.1@
                &&& k.prev_exporter@ == ring@[0]@
                &&& k.stamp == stamp
            },
        },
{
    match restored {
        Err(why) => Err(why),
        Ok((commit, welcome)) => {
            if ring.len() == 0 {
                Err("the re-key left no previous exporter - the commit would seal opaque".to_owned())
            } else {
                Ok(NostrRekey { commit, welcome, prev_exporter: ring[0], stamp })
            }
        },
    }
}

/// The line that tells the group how a member came back.
pub open spec fn rejoin_line(ticketed: bool, member: Seq<char>) -> Seq<char> {
    if ticketed {
        "🔑 "@ + member + " rejoined the republic after recovery"@
    } else {
        "🔁 "@ + member + " reconnected from a restored backup"@
    }
}

/// The line that tells the group how a member came back: over a minted link,
/// or by itself from a restored backup.
pub fn rejoin_note(ticketed: bool, member: &str) -> (r: String)
    ensures
        r@ == rejoin_line(ticketed, member@),
{
    if ticketed {
        let mut line = "🔑 ".to_owned();
        line.append(member);
        line.append(" rejoined the republic after recovery");
        line
    } else {
        let mut line = "🔁 ".to_owned();
        line.append(member);
        line.append(" reconnected from a restored backup");
        line
    }
}

impl StateV {
    /// How a re-key of `member` over the relays will be delivered, or why it
    /// cannot be.
    pub open spec fn rekey_plan(self, member: Seq<char>, facts: FactsV) -> Result<
        PlanV,
        RekeyRefusal,
    > {
        if facts.dialable.len() == 0 {
            Err(RekeyRefusal::NoRelay)
        } else if !facts.has_route {
            Err(RekeyRefusal::NoRoute)
        } else if self.live_relays is None {
            Err(RekeyRefusal::NoTransport)
        } else if !facts.keys_usable {
            Err(RekeyRefusal::BadKeys)
        } else if self.address_of(member).len() == 0 {
            Err(RekeyRefusal::NoAddress)
        } else {
            let relays = self.live_relays->0;
            Ok(
                PlanV {
                    to: self.address_of(member),
                    relays: if relays.len() > facts.max_relays {
                        relays.take(facts.max_relays as int)
                    } else {
                        relays
                    },
                },
            )
        }
    }

    /// What goes out after a re-key over the relays: the commit at its stamp,
    /// then the chain's anchor for the returning member, then a quiet line.
    pub open spec fn rekeyed_over_relays(
        self,
        ticketed: bool,
        member: Seq<char>,
        commit: Seq<u8>,
        stamp: u64,
        blob_fits: bool,
    ) -> StateV {
        let sent = self.recording(
            WireV::MlsCommit { commit: identity::hex_text(commit), stamp },
        ).doing(EffectV::ResetAcceptWindow { member });
        sent.recording_each(sent.bootstrap(blob_fits)).doing(
            EffectV::RejoinNote { line: rejoin_line(ticketed, member) },
        )
    }

    /// What goes out after a re-key over the mesh: the commit, then a quiet
    /// line; and the member's next announcement is accepted.
    pub open spec fn rekeyed_over_mesh(
        self,
        ticketed: bool,
        member: Seq<char>,
        commit: Seq<u8>,
    ) -> StateV {
        self.recording(WireV::MlsCommit { commit: identity::hex_text(commit), stamp: 0 }).doing(
            EffectV::RejoinNote { line: rejoin_line(ticketed, member) },
        ).doing(EffectV::AcceptAnnounce { member })
    }
}

impl State {
    /// How a re-key of `member` over the relays will be delivered. Everything
    /// that can fail is settled here, before the group is touched.
    pub fn plan_rekey(&self, member: &str, facts: &TransportFacts) -> (r: Result<
        RekeyPlan,
        RekeyRefusal,
    >)
        ensures
            match r {
                Ok(plan) => self.deep_view().rekey_plan(member@, facts.deep_view()) == Ok::<
                    PlanV,
                    RekeyRefusal,
                >(plan.deep_view()),
                Err(e) => self.deep_view().rekey_plan(member@, facts.deep_view()) == Err::<
                    PlanV,
                    RekeyRefusal,
                >(e),
            },
    {
        if facts.dialable.len() == 0 {
            return Err(RekeyRefusal::NoRelay);
        }
        if !facts.has_route {
            return Err(RekeyRefusal::NoRoute);
        }
        let mut relays: Vec<String> = match &self.live_relays {
            Some(l) => l.clone(),
            None => {
                return Err(RekeyRefusal::NoTransport);
            },
        };
        if !facts.keys_usable {
            return Err(RekeyRefusal::BadKeys);
        }
        let to = self.working_nostr_pk(member);
        if to.as_str().is_empty() {
            return Err(RekeyRefusal::NoAddress);
        }
        let ghost all = relays.deep_view();
        if relays.len() > facts.max_relays {
            relays.truncate(facts.max_relays);
            assert(relays.deep_view() =~= all.take(facts.max_relays as int));
        }
        Ok(RekeyPlan { to, relays })
    }

    /// Sends what goes out after a re-key over the relays. The commit goes
    /// first: whoever is still at the old epoch needs it to read the rest.
    pub fn after_relay_rekey(
        &mut self,
        ticketed: bool,
        member: &str,
        commit: &Vec<u8>,
        stamp: u64,
        blob_fits: bool,
    )
        ensures
            final(self).deep_view() == old(self).deep_view().rekeyed_over_relays(
                ticketed,
                member@,
                commit@,
                stamp,
                blob_fits,
            ),
    {
        self.record(WorkspaceEvent::MlsCommit { commit: hex_encode(commit.as_slice()), stamp });
        self.doing(Effect::ResetAcceptWindow { member: member.to_owned() });
        self.serve_chain_anchor(blob_fits);
        self.doing(Effect::RejoinNote { line: rejoin_note(ticketed, member) });
    }

    /// Sends what goes out after a re-key over the mesh.
    pub fn after_mesh_rekey(&mut self, ticketed: bool, member: &str, commit: &Vec<u8>)
        ensures
            final(self).deep_view() == old(self).deep_view().rekeyed_over_mesh(
                ticketed,
                member@,
                commit@,
            ),
    {
        self.record(WorkspaceEvent::MlsCommit { commit: hex_encode(commit.as_slice()), stamp: 0 });
        self.doing(Effect::RejoinNote { line: rejoin_note(ticketed, member) });
        self.doing(Effect::AcceptAnnounce { member: member.to_owned() });
    }
}

} // verus!
