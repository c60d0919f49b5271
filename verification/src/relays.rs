//! The effective relay pool and feature set that a holder reads from its
//! chain, and the seats that share no relay.

use crate::canonical::same_value;
use crate::fold;
use crate::fold::find_group;
use crate::history;
use crate::history::{
    find_anchor, find_declaration, fold_pool_entries, ratified_pool, shares_one,
};
use crate::model;
use crate::model::{EntryV, Surface};
use crate::signers;
use crate::signers::find_seat;
use crate::state::{Effect, EffectV, SplitPair, SplitV, State, StateV};
use crate::text;
use crate::text::{add_name, same_text, split_words};
use vstd::prelude::*;
use vstd::string::*;

verus! {

/// The names with further ones, ascending, each once.
pub open spec fn names_into(names: Seq<Seq<char>>, more: Seq<Seq<char>>) -> Seq<Seq<char>>
    decreases more.len(),
{
    if more.len() == 0 {
        names
    } else {
        text::insert_name(names_into(names, more.drop_last()), more.last())
    }
}

/// Adds names, ascending, each once.
pub fn add_names(names: &mut Vec<String>, more: &Vec<String>)
    ensures
        final(names).deep_view() == names_into(old(names).deep_view(), more.deep_view()),
{
    let ghost start = names.deep_view();
    let ghost all = more.deep_view();
    let mut i: usize = 0;
    assert(all.take(0) =~= Seq::empty());
    while i < more.len()
        invariant
            i <= more.len(),
            start == old(names).deep_view(),
            all == more.deep_view(),
            names.deep_view() == names_into(start, all.take(i as int)),
        decreases more.len() - i,
    {
        proof {
            assert(all.take(i + 1).drop_last() =~= all.take(i as int));
            assert(all.take(i + 1).last() == more@[i as int]@);
        }
        add_name(names, &more[i]);
        i = i + 1;
    }
    assert(all.take(i as int) =~= all);
}

/// The features after every feature edit among the entries: an edit only ever
/// adds.
pub open spec fn features_over(features: Seq<Seq<char>>, entries: Seq<EntryV>) -> Seq<Seq<char>>
    decreases entries.len(),
{
    if entries.len() == 0 {
        features
    } else {
        let rest = features_over(features, entries.drop_last());
        let payload = entries.last().payload;
        if payload.has_op("set_features"@) {
            names_into(rest, text::words_of(payload.value_text()))
        } else {
            rest
        }
    }
}

/// Every name that was there stays, and the list stays ascending.
pub proof fn adding_names_keeps_them(names: Seq<Seq<char>>, more: Seq<Seq<char>>)
    requires
        text::ascending(names),
    ensures
        text::ascending(names_into(names, more)),
        forall|n: Seq<char>|
            #[trigger] names_into(names, more).contains(n) <==> names.contains(n) || more.contains(n),
    decreases more.len(),
{
    if more.len() > 0 {
        let front = more.drop_last();
        adding_names_keeps_them(names, front);
        text::lemma_insert_name(names_into(names, front), more.last());
        assert forall|n: Seq<char>|
            #[trigger] names_into(names, more).contains(n) <==> names.contains(n) || more.contains(
                n,
            ) by {
            if front.contains(n) {
                let k = choose|k: int| 0 <= k < front.len() && front[k] == n;
                assert(more[k] == n);
            }
            if more.contains(n) {
                let k = choose|k: int| 0 <= k < more.len() && more[k] == n;
                if k < front.len() {
                    assert(front[k] == n);
                }
            }
            assert(more[more.len() - 1] == more.last());
            if names_into(names, front).contains(n) {
                assert(names_into(names, more).contains(n));
            }
        }
    }
}

/// A feature that is on is never switched off: whatever entries a chain
/// applies, the features only grow.
pub proof fn features_are_never_switched_off(features: Seq<Seq<char>>, entries: Seq<EntryV>)
    requires
        text::ascending(features),
    ensures
        text::ascending(features_over(features, entries)),
        forall|f: Seq<char>|
            features.contains(f) ==> #[trigger] features_over(features, entries).contains(f),
    decreases entries.len(),
{
    if entries.len() > 0 {
        features_are_never_switched_off(features, entries.drop_last());
        let rest = features_over(features, entries.drop_last());
        let payload = entries.last().payload;
        if payload.has_op("set_features"@) {
            adding_names_keeps_them(rest, text::words_of(payload.value_text()));
            assert forall|f: Seq<char>| features.contains(f) implies #[trigger] features_over(
                features,
                entries,
            ).contains(f) by {
                assert(rest.contains(f));
            }
        }
    }
}

/// Is this surface one that the charter switches on?
pub open spec fn is_optional(surface: Surface) -> bool {
    surface == Surface::Memory || surface == Surface::Quests || surface == Surface::Vault
        || surface == Surface::Wallet
}

/// The noted splits with further ones, each once.
pub open spec fn splits_noted(noted: Seq<SplitV>, splits: Seq<SplitV>) -> Seq<SplitV>
    decreases splits.len(),
{
    if splits.len() == 0 {
        noted
    } else {
        let rest = splits_noted(noted, splits.drop_last());
        if rest.contains(splits.last()) {
            rest
        } else {
            rest.push(splits.last())
        }
    }
}

/// Is that split among the noted ones?
fn has_split(noted: &Vec<SplitPair>, split: &SplitPair) -> (r: bool)
    ensures
        r == noted.deep_view().contains(split.deep_view()),
{
    let ghost all = noted.deep_view();
    let mut i: usize = 0;
    while i < noted.len()
        invariant
            i <= noted.len(),
            all == noted.deep_view(),
            forall|k: int| 0 <= k < i ==> all[k] != split.deep_view(),
        decreases noted.len() - i,
    {
        assert(all[i as int] == noted@[i as int].deep_view());
        if same_text(noted[i].a.as_str(), split.a.as_str()) && same_text(
            noted[i].b.as_str(),
            split.b.as_str(),
        ) {
            return true;
        }
        i = i + 1;
    }
    false
}

impl StateV {
    /// The applied entries of the organization.
    pub open spec fn org_entries(self) -> Seq<EntryV> {
        fold::entries_of(self.applied, Surface::Organization)
    }

    /// The pool that the republic was founded on.
    pub open spec fn founding_pool(self) -> Seq<Seq<char>> {
        history::founded_pool(self.checkpoint_blob, self.blocks)
    }

    /// The pool as governed: the founding pool after every applied edit.
    pub open spec fn pool(self) -> Seq<Seq<char>> {
        history::pool_over(self.founding_pool(), self.org_entries())
    }

    /// The features that the republic was founded with. A founding that
    /// ratified none at all has the wiki.
    pub open spec fn founding_features(self) -> Seq<Seq<char>> {
        if self.replica is Some && self.replica->0.features is Some {
            names_into(Seq::empty(), self.replica->0.features->0)
        } else {
            seq!["memory"@]
        }
    }

    /// The features as governed.
    pub open spec fn features(self) -> Seq<Seq<char>> {
        features_over(self.founding_features(), self.org_entries())
    }

    /// The relays that a member is on record as reaching.
    pub open spec fn relays_of(self, member: Seq<char>) -> Seq<Seq<char>> {
        match history::declaration_of(self.member_relays, member) {
            Some(declared) => declared,
            None => self.pool(),
        }
    }

    /// Can these two never exchange a frame? Where either has no relay on
    /// record there is no verdict.
    pub open spec fn split(self, a: Seq<char>, b: Seq<char>) -> bool {
        &&& self.relays_of(a).len() > 0
        &&& self.relays_of(b).len() > 0
        &&& !history::share_one(self.relays_of(a), self.relays_of(b))
    }

    /// The splits of seat `i` with the seats from `j` up to `end`.
    pub open spec fn splits_of(self, i: int, j: int, end: int) -> Seq<SplitV>
        decreases end - j,
    {
        let roster = self.roster();
        if j >= end {
            Seq::empty()
        } else {
            let rest = self.splits_of(i, j, end - 1);
            if self.split(roster[i], roster[end - 1]) {
                rest.push(SplitV { a: roster[i], b: roster[end - 1] })
            } else {
                rest
            }
        }
    }

    /// The splits of the first `n` seats with every later seat.
    pub open spec fn splits_upto(self, n: int) -> Seq<SplitV>
        decreases n,
    {
        if n <= 0 {
            Seq::empty()
        } else {
            self.splits_upto(n - 1) + self.splits_of(n - 1, n, self.roster().len() as int)
        }
    }

    /// Every pair of seats that share no relay, in roster order.
    pub open spec fn splits(self) -> Seq<SplitV> {
        self.splits_upto(self.roster().len() as int)
    }

    /// The splits of the present noted.
    pub open spec fn noting_splits(self) -> StateV {
        StateV { split_noted: splits_noted(self.split_noted, self.splits()), ..self }
    }

    /// The key to address a member at: the one that a block gave its seat
    /// last, else the founding one; empty for an unknown member.
    pub open spec fn address_of(self, member: Seq<char>) -> Seq<char> {
        match history::anchor_of(self.anchors, member) {
            Some(pk) => pk,
            None => if self.replica is Some && signers::seat_of(
                self.replica->0.identities,
                member,
            ) is Some {
                signers::seat_of(self.replica->0.identities, member)->0.nostr_pk
            } else {
                Seq::empty()
            },
        }
    }

    /// The governed pool carried into the running transport, if it moved.
    pub open spec fn pool_adopted(self) -> StateV {
        let pool = self.pool();
        if self.live_relays is None || pool.len() == 0 || self.live_relays->0 == pool {
            self
        } else {
            (StateV { live_relays: Some(pool), ..self }).doing(EffectV::PoolMoved { relays: pool })
        }
    }
}

impl State {
    /// The pool that the republic was founded on.
    pub fn ratified_relays(&self) -> (r: Vec<String>)
        ensures
            r.deep_view() == self.deep_view().founding_pool(),
    {
        ratified_pool(self.checkpoint_blob.as_ref(), &self.blocks)
    }

    /// The pool as governed.
    pub fn effective_relays(&self) -> (r: Vec<String>)
        ensures
            r.deep_view() == self.deep_view().pool(),
    {
        let ghost s = self.deep_view();
        let mut pool = self.ratified_relays();
        let at = find_group(&self.applied, Surface::Organization);
        if at >= self.applied.len() {
            assert(s.org_entries() =~= Seq::empty());
            return pool;
        }
        assert(s.applied[at as int] == self.applied@[at as int].deep_view());
        fold_pool_entries(&mut pool, &self.applied[at].entries);
        pool
    }

    /// The features as governed, ascending.
    pub fn effective_features(&self) -> (r: Vec<String>)
        ensures
            r.deep_view() == self.deep_view().features(),
    {
        let ghost s = self.deep_view();
        let mut set: Vec<String> = Vec::new();
        assert(set.deep_view() =~= Seq::empty());
        let mut founded = false;
        match &self.replica {
            Some(r) => {
                match &r.features {
                    Some(f) => {
                        add_names(&mut set, f);
                        founded = true;
                    },
                    None => {},
                }
            },
            None => {},
        }
        if !founded {
            set.push("memory".to_owned());
            assert(set.deep_view() =~= seq!["memory"@]);
        }
        let at = find_group(&self.applied, Surface::Organization);
        if at >= self.applied.len() {
            assert(s.org_entries() =~= Seq::empty());
            return set;
        }
        let entries = &self.applied[at].entries;
        let ghost all = entries.deep_view();
        let ghost base = set.deep_view();
        let mut i: usize = 0;
        assert(all.take(0) =~= Seq::empty());
        assert(s.applied[at as int] == self.applied@[at as int].deep_view());
        while i < entries.len()
            invariant
                i <= entries.len(),
                all == entries.deep_view(),
                set.deep_view() == features_over(base, all.take(i as int)),
            decreases entries.len() - i,
        {
            proof {
                assert(all.take(i + 1).drop_last() =~= all.take(i as int));
                assert(all.take(i + 1).last() == entries@[i as int].deep_view());
            }
            if entries[i].payload.has_op("set_features") {
                let value = entries[i].payload.value_text();
                let words = split_words(value.as_str());
                add_names(&mut set, &words);
            }
            i = i + 1;
        }
        assert(all.take(i as int) =~= all);
        set
    }

    /// Refuses an optional surface that the charter has not switched on, by
    /// its name.
    pub fn require_feature(&self, surface: Surface) -> (r: Result<(), &'static str>)
        ensures
            r is Ok <==> !is_optional(surface) || self.deep_view().features().contains(
                model::surface_name(surface),
            ),
            r is Err ==> r->Err_0@ == model::surface_name(surface),
    {
        let optional = match surface {
            Surface::Memory | Surface::Quests | Surface::Vault | Surface::Wallet => true,
            _ => false,
        };
        if !optional {
            return Ok(());
        }
        let features = self.effective_features();
        if text::has_name(&features, surface.as_str()) {
            Ok(())
        } else {
            Err(surface.as_str())
        }
    }

    /// The relays that a member is on record as reaching.
    pub fn member_relays(&self, member: &str) -> (r: Vec<String>)
        ensures
            r.deep_view() == self.deep_view().relays_of(member@),
    {
        match find_declaration(&self.member_relays, member) {
            Some(declared) => declared,
            None => self.effective_relays(),
        }
    }

    /// Every pair of seats that share no relay, in roster order: such a pair
    /// can never exchange a frame.
    pub fn relay_splits(&self) -> (r: Vec<SplitPair>)
        ensures
            r.deep_view() == self.deep_view().splits(),
    {
        let ghost s = self.deep_view();
        let roster = self.roster();
        let ghost names = roster.deep_view();
        let mut out: Vec<SplitPair> = Vec::new();
        let mut i: usize = 0;
        assert(out.deep_view() =~= s.splits_upto(0));
        while i < roster.len()
            invariant
                i <= roster.len(),
                s == self.deep_view(),
                names == roster.deep_view(),
                names == s.roster(),
                out.deep_view() == s.splits_upto(i as int),
            decreases roster.len() - i,
        {
            let ghost before = out.deep_view();
            let mut j: usize = i + 1;
            assert(before + s.splits_of(i as int, i + 1, j as int) =~= before);
            while j < roster.len()
                invariant
                    i < j <= roster.len(),
                    s == self.deep_view(),
                    names == roster.deep_view(),
                    names == s.roster(),
                    out.deep_view() == before + s.splits_of(i as int, i + 1, j as int),
                decreases roster.len() - j,
            {
                let ghost done = out.deep_view();
                let ghost part = s.splits_of(i as int, i + 1, j as int);
                proof {
                    assert(names[i as int] == roster@[i as int]@);
                    assert(names[j as int] == roster@[j as int]@);
                }
                let a = self.member_relays(roster[i].as_str());
                let b = self.member_relays(roster[j].as_str());
                if a.len() > 0 && b.len() > 0 && !shares_one(&a, &b) {
                    let pair = SplitPair { a: roster[i].clone(), b: roster[j].clone() };
                    out.push(pair);
                    proof {
                        assert(out.deep_view() =~= done.push(pair.deep_view()));
                        assert(done.push(pair.deep_view()) =~= before + part.push(
                            pair.deep_view(),
                        ));
                    }
                }
                j = j + 1;
            }
            i = i + 1;
        }
        out
    }

    /// Notes the splits of the present, each once.
    pub fn note_relay_splits(&mut self)
        ensures
            final(self).deep_view() == old(self).deep_view().noting_splits(),
    {
        let splits = self.relay_splits();
        let ghost all = splits.deep_view();
        let ghost start = self.deep_view();
        let mut i: usize = 0;
        assert(all.take(0) =~= Seq::empty());
        while i < splits.len()
            invariant
                i <= splits.len(),
                all == splits.deep_view(),
                start == old(self).deep_view(),
                self.deep_view() == (StateV {
                    split_noted: splits_noted(start.split_noted, all.take(i as int)),
                    ..start
                }),
            decreases splits.len() - i,
        {
            let ghost noted = self.split_noted.deep_view();
            proof {
                assert(all.take(i + 1).drop_last() =~= all.take(i as int));
                assert(all.take(i + 1).last() == splits@[i as int].deep_view());
            }
            if !has_split(&self.split_noted, &splits[i]) {
                let split = splits[i].clone();
                self.split_noted.push(split);
                assert(self.split_noted.deep_view() =~= noted.push(split.deep_view()));
            }
            i = i + 1;
        }
        assert(all.take(i as int) =~= all);
    }

    /// The key to address a member at.
    pub fn working_nostr_pk(&self, member: &str) -> (r: String)
        ensures
            r@ == self.deep_view().address_of(member@),
    {
        match find_anchor(&self.anchors, member) {
            Some(pk) => {
                return pk;
            },
            None => {},
        }
        match &self.replica {
            Some(r) => match find_seat(&r.identities, member) {
                Some(seat) => seat.nostr_pk.clone(),
                None => String::new(),
            },
            None => String::new(),
        }
    }

    /// Carries the governed pool into the running transport, if it moved.
    pub fn adopt_pool_change(&mut self)
        ensures
            final(self).deep_view() == old(self).deep_view().pool_adopted(),
    {
        let pool = self.effective_relays();
        let moved = match &self.live_relays {
            Some(live) => pool.len() > 0 && !same_value(live, &pool),
            None => false,
        };
        if moved {
            self.live_relays = Some(pool.clone());
            self.doing(Effect::PoolMoved { relays: pool });
        }
    }
}

} // verus!
