//! What holds of every holder's state, whatever it hears.

use crate::card_laws;
use crate::fold;
use crate::governance;
use crate::history;
use crate::model::{AttestationV, BlockV, ChangeV, EntryV, GroupV, IdentityV, Surface};
use crate::own_chain;
use crate::payload::PayloadV;
use crate::projection;
use crate::sealing;
use crate::state::{State, StateV};
use crate::table;
use crate::text;
use crate::votes;
use crate::walk;
use vstd::prelude::*;

verus! {

/// A refused block leaves the chain and everything read from it as they were,
/// and the next block is judged as if the refused one had never come.
pub proof fn a_refused_block_leaves_no_trace(s: StateV, block: BlockV, next: BlockV)
    requires
        !s.accepts(block),
    ensures
        s.appending(block) == (StateV { walk: s.appending(block).walk, ..s }),
        s.appending(block).extension(next) == s.extension(next),
{
    let t = s.appending(block);
    assert(t.blocks == s.blocks);
    match s.own_walk() {
        Err(e) => {},
        Ok(w) => {
            assert(t.walk == Some(w));
            if !walk::describes_chain(w, t.blocks, t.covered()) {
                assert(t.own_walk() == t.walked_here(t.blocks));
            }
        },
    }
}

/// A signature that does not verify never takes the place of one that did,
/// and none is ever held under the holder's own name.
pub proof fn junk_never_evicts_a_verified_signature(
    s: StateV,
    id: u64,
    height: u64,
    att: AttestationV,
)
    requires
        height <= s.held(id).height,
        s.held(id).verified.contains(att.member) || att.member == s.me(),
    ensures
        s.collecting(id, height, att, false) == s,
{
}

/// Is the projection the one that the whole chain makes?
pub open spec fn projected(s: StateV) -> bool {
    &&& s.applied == s.projected_groups()
    &&& s.applied_sigs == projection::applied_sigs_through(s.blocks)
    &&& s.anchors == s.projected_anchors()
    &&& s.member_relays == s.projected_declarations()
}

/// Appending a block to a projected chain gives the projection that the whole
/// chain makes: nothing has to be rebuilt.
pub proof fn appending_equals_projecting_anew(s: StateV, block: BlockV)
    requires
        projected(s),
        s.accepts(block),
    ensures
        projected(s.appending(block)),
{
    sealing::lemma_appended_head(s, block);
    let t = s.appending(block);
    assert(t.blocks.drop_last() =~= s.blocks);
    assert(t.blocks.last() == block);
    assert(t.checkpoint_blob == s.checkpoint_blob);
}

/// One more entry is the last of its surface, and no other surface has it.
proof fn lemma_entries_with(groups: Seq<GroupV>, surface: Surface, entry: EntryV, of: Surface)
    ensures
        fold::entries_of(projection::group_with(groups, surface, entry), of) == (if surface == of {
            fold::entries_of(groups, of).push(entry)
        } else {
            fold::entries_of(groups, of)
        }),
    decreases groups.len(),
{
    let out = projection::group_with(groups, surface, entry);
    fold::lemma_group_at(groups, surface);
    if groups.len() == 0 {
        assert(out.skip(1) =~= Seq::empty());
        assert(Seq::<EntryV>::empty().push(entry) =~= seq![entry]);
    } else {
        let rest = groups.skip(1);
        fold::lemma_group_at(rest, surface);
        fold::lemma_group_at(groups, of);
        fold::lemma_group_at(rest, of);
        if groups[0].surface == surface {
            assert(out.skip(1) =~= rest);
        } else {
            assert(out.skip(1) =~= projection::group_with(rest, surface, entry));
            lemma_entries_with(rest, surface, entry, of);
            fold::lemma_group_at(out.skip(1), of);
        }
    }
}

/// The pool over what a summary's group seeds is the pool over its entries.
proof fn lemma_pool_entries(
    pool: Seq<Seq<char>>,
    groups: Seq<GroupV>,
    surface: Surface,
    entries: Seq<EntryV>,
)
    ensures
        history::pool_over(
            pool,
            fold::entries_of(
                projection::entries_into(groups, surface, entries),
                Surface::Organization,
            ),
        ) == (if surface == Surface::Organization {
            history::pool_over(
                history::pool_over(pool, fold::entries_of(groups, Surface::Organization)),
                entries,
            )
        } else {
            history::pool_over(pool, fold::entries_of(groups, Surface::Organization))
        }),
    decreases entries.len(),
{
    if entries.len() > 0 {
        let front = entries.drop_last();
        lemma_pool_entries(pool, groups, surface, front);
        let before = projection::entries_into(groups, surface, front);
        lemma_entries_with(before, surface, entries.last(), Surface::Organization);
        let org = fold::entries_of(before, Surface::Organization);
        assert(org.push(entries.last()).drop_last() =~= org);
    }
}

/// The pool over what a summary seeds is the pool in its groups.
proof fn lemma_pool_seeded(pool: Seq<Seq<char>>, groups: Seq<GroupV>)
    ensures
        history::pool_over(
            pool,
            fold::entries_of(projection::groups_seeded(groups), Surface::Organization),
        ) == history::pool_in(pool, groups),
    decreases groups.len(),
{
    if groups.len() > 0 {
        lemma_pool_seeded(pool, groups.drop_last());
        lemma_pool_entries(
            pool,
            projection::groups_seeded(groups.drop_last()),
            groups.last().surface,
            groups.last().entries,
        );
    }
}

/// The pool over what the blocks apply is the pool through them.
proof fn lemma_pool_applied(pool: Seq<Seq<char>>, base: Seq<GroupV>, blocks: Seq<BlockV>)
    ensures
        history::pool_over(
            pool,
            fold::entries_of(projection::groups_through(base, blocks), Surface::Organization),
        ) == history::pool_through(
            history::pool_over(pool, fold::entries_of(base, Surface::Organization)),
            blocks,
        ),
    decreases blocks.len(),
{
    if blocks.len() > 0 {
        let front = blocks.drop_last();
        lemma_pool_applied(pool, base, front);
        match blocks.last().change {
            ChangeV::Applied { proposal_id, surface, payload } => {
                let before = projection::groups_through(base, front);
                let entry = EntryV { id: proposal_id, payload };
                lemma_entries_with(before, surface, entry, Surface::Organization);
                let org = fold::entries_of(before, Surface::Organization);
                assert(org.push(entry).drop_last() =~= org);
            },
            _ => {},
        }
    }
}

/// Served material folds to the governed pool that its holder computes: the
/// edits voted before a cut are not lost with it.
pub proof fn the_served_pool_is_the_holders_own(s: StateV)
    requires
        projected(s),
    ensures
        history::served_pool(s.checkpoint_blob, s.blocks) == s.pool(),
{
    let founded = s.founding_pool();
    let base = match s.checkpoint_blob {
        Some(blob) => projection::groups_seeded(blob.applied),
        None => Seq::empty(),
    };
    lemma_pool_applied(founded, base, s.blocks);
    match s.checkpoint_blob {
        Some(blob) => {
            lemma_pool_seeded(founded, blob.applied);
        },
        None => {},
    }
}

/// Projecting the whole chain gives the projection that it makes.
pub proof fn projecting_anew_projects(s: StateV)
    ensures
        projected(s.chain_applied()),
{
    sealing::lemma_chain_applied_frame(s);
}

/// After a chain was adopted or extended, the mint counter is past every
/// proposal id that the chain consumed, as far as there is a number past it.
pub proof fn the_mint_counter_stays_ahead(s: StateV, id: u64)
    requires
        s.walk is Some,
        s.walk->0.seen.finite(),
        s.walk->0.seen.contains(id),
    ensures
        s.minting_past_chain().next_id > id || id == u64::MAX,
{
    lemma_top_exists(s.walk->0.seen, id);
    let seen = s.walk->0.seen;
    let top = own_chain::top_of(seen)->0;
    assert(own_chain::is_top(seen, top));
}

/// A finite set of ids with a member has a largest one.
proof fn lemma_top_exists(ids: Set<u64>, id: u64)
    requires
        ids.finite(),
        ids.contains(id),
    ensures
        exists|t: u64| own_chain::is_top(ids, t),
    decreases ids.len(),
{
    let rest = ids.remove(id);
    if exists|o: u64| rest.contains(o) {
        let o = choose|o: u64| rest.contains(o);
        lemma_top_exists(rest, o);
        let t = choose|t: u64| own_chain::is_top(rest, t);
        let top = if t >= id {
            t
        } else {
            id
        };
        assert forall|x: u64| #[trigger] ids.contains(x) implies x <= top by {
            if x != id {
                assert(rest.contains(x));
            }
        }
        assert(own_chain::is_top(ids, top));
    } else {
        assert forall|x: u64| #[trigger] ids.contains(x) implies x <= id by {
            if x != id {
                assert(rest.contains(x));
            }
        }
        assert(own_chain::is_top(ids, id));
    }
}

/// An id out of the mint counter's reach changes nothing, whatever it comes
/// with.
pub proof fn an_id_out_of_reach_changes_nothing(
    s: StateV,
    id: u64,
    surface: Surface,
    payload: PayloadV,
    by: Seq<char>,
    change: ChangeV,
    canonical_anchor: bool,
    upto: u64,
    state_hash: Seq<char>,
    height: u64,
    att: AttestationV,
)
    requires
        !s.plausible(id),
    ensures
        s.proposed_here(id, surface, payload, by) == s,
        s.membership_heard(id, change, canonical_anchor) == s,
        s.cut_heard(id, upto, state_hash) == s,
        s.approval_heard(id, height, att) == s,
{
}

/// A membership change or a cut that comes under the id of an ordinary
/// proposal is not registered: an approval of that proposal still signs what
/// it always did.
pub proof fn a_taken_id_is_never_renamed(
    s: StateV,
    id: u64,
    change: ChangeV,
    canonical_anchor: bool,
)
    requires
        table::get(s.proposal_changes, id) is None,
        table::get(s.proposals, id) is Some,
        change is Membership ==> !votes::wears(
            table::get(s.proposals, id)->0,
            change->Membership_op,
            change->Membership_member,
        ),
    ensures
        !s.id_free(id, change),
        s.membership_heard(id, change, canonical_anchor) == s,
        change is Checkpoint ==> s.cut_heard(
            id,
            change->Checkpoint_upto,
            change->Checkpoint_state_hash,
        ).proposal_changes == s.proposal_changes,
{
    if change is Checkpoint {
        assert(!s.takes_cut(id, change->Checkpoint_upto, change->Checkpoint_state_hash));
    }
}

/// An ordinary proposal under the id of a registered change is not carded.
pub proof fn a_registered_change_is_never_shadowed(
    s: StateV,
    id: u64,
    surface: Surface,
    payload: PayloadV,
    by: Seq<char>,
)
    requires
        table::get(s.proposal_changes, id) is Some,
    ensures
        !s.takes_proposed(id, by),
        s.proposed_here(id, surface, payload, by).proposals == s.proposals,
        s.proposed_here(id, surface, payload, by).change_for(id) == s.change_for(id),
{
}

/// A restore without a consent is never signed without a human voice.
pub proof fn a_restore_without_consent_waits(s: StateV, id: u64, canonical_anchor: bool)
    requires
        table::get(s.proposal_changes, id) is Some,
        votes::consenting(table::get(s.proposal_changes, id)->0) is None,
    ensures
        s.attesting(id, canonical_anchor) == s,
{
}

/// Hearing a proposal again changes nothing.
pub proof fn hearing_a_proposal_again_changes_nothing(
    s: StateV,
    id: u64,
    surface: Surface,
    payload: PayloadV,
    by: Seq<char>,
)
    ensures
        s.proposed_here(id, surface, payload, by).proposed_here(id, surface, payload, by)
            == s.proposed_here(id, surface, payload, by),
{
    let t = s.proposed_here(id, surface, payload, by);
    if s.takes_proposed(id, by) {
        table::reading_a_put(
            s.proposals,
            id,
            governance::open_card(surface, payload, by),
            id,
        );
        assert(table::has(t.proposals, id));
        assert(t.minting_past(id) == t);
    } else if s.plausible(id) && !s.crowded(id, by) {
        assert(t == s.minting_past(id));
        assert(!t.takes_proposed(id, by));
        assert(t.minting_past(id) == t);
    }
}

/// Do the votes ascend by name, each name once?
pub open spec fn by_name(votes: Seq<AttestationV>) -> bool {
    forall|i: int, j: int|
        0 <= i < j < votes.len() ==> text::before(
            (#[trigger] votes[i]).member,
            (#[trigger] votes[j]).member,
        )
}

/// Placing a vote keeps the order and adds nothing but the vote; it is there
/// unless its name already was.
proof fn lemma_vote_placed(list: Seq<AttestationV>, vote: AttestationV)
    requires
        by_name(list),
    ensures
        by_name(votes::vote_placed(list, vote)),
        forall|v: AttestationV|
            #[trigger] votes::vote_placed(list, vote).contains(v) ==> list.contains(v) || v == vote,
        forall|v: AttestationV|
            list.contains(v) ==> #[trigger] votes::vote_placed(list, vote).contains(v),
        votes::signed_by(votes::vote_placed(list, vote), vote.member),
        !votes::signed_by(list, vote.member) ==> votes::vote_placed(list, vote).contains(vote),
    decreases list.len(),
{
    let out = votes::vote_placed(list, vote);
    if list.len() == 0 {
        assert(out[0] == vote);
    } else {
        let front = list.drop_last();
        let last = list.last();
        assert(list[list.len() - 1] == last);
        assert forall|i: int| 0 <= i < front.len() implies text::before(
            (#[trigger] front[i]).member,
            last.member,
        ) by {
            assert(front[i] == list[i]);
            assert(text::before(list[i].member, list[list.len() - 1].member));
        }
        assert forall|i: int, j: int| 0 <= i < j < front.len() implies text::before(
            (#[trigger] front[i]).member,
            (#[trigger] front[j]).member,
        ) by {
            assert(front[i] == list[i] && front[j] == list[j]);
        }
        if last.member == vote.member {
            assert(out[out.len() - 1].member == vote.member);
        } else if text::before(vote.member, last.member) {
            lemma_vote_placed(front, vote);
            let inner = votes::vote_placed(front, vote);
            assert(out == inner.push(last));
            assert forall|i: int| 0 <= i < inner.len() implies text::before(
                (#[trigger] inner[i]).member,
                last.member,
            ) by {
                assert(inner.contains(inner[i]));
                if inner[i] != vote {
                    assert(front.contains(inner[i]));
                    let k = choose|k: int| 0 <= k < front.len() && front[k] == inner[i];
                    assert(text::before(front[k].member, last.member));
                }
            }
            assert forall|i: int, j: int| 0 <= i < j < out.len() implies text::before(
                (#[trigger] out[i]).member,
                (#[trigger] out[j]).member,
            ) by {
                assert(out[i] == inner[i]);
                if j < inner.len() {
                    assert(out[j] == inner[j]);
                }
            }
            assert forall|v: AttestationV| #[trigger] out.contains(v) implies list.contains(v) || v
                == vote by {
                let k = choose|k: int| 0 <= k < out.len() && out[k] == v;
                if k < inner.len() {
                    assert(inner[k] == v);
                    assert(inner.contains(v));
                    if v != vote {
                        let m = choose|m: int| 0 <= m < front.len() && front[m] == v;
                        assert(list[m] == v);
                    }
                } else {
                    assert(list[list.len() - 1] == v);
                }
            }
            assert forall|v: AttestationV| list.contains(v) implies #[trigger] out.contains(v) by {
                let k = choose|k: int| 0 <= k < list.len() && list[k] == v;
                if k < front.len() {
                    assert(front[k] == v);
                    assert(inner.contains(v));
                    let m = choose|m: int| 0 <= m < inner.len() && inner[m] == v;
                    assert(out[m] == v);
                } else {
                    assert(out[out.len() - 1] == v);
                }
            }
            let w = choose|w: int|
                0 <= w < inner.len() && (#[trigger] inner[w]).member == vote.member;
            assert(out[w].member == vote.member);
            if !votes::signed_by(list, vote.member) {
                assert forall|k: int| 0 <= k < front.len() implies (#[trigger] front[k]).member
                    != vote.member by {
                    assert(list[k] == front[k]);
                }
                assert(inner.contains(vote));
                let m = choose|m: int| 0 <= m < inner.len() && inner[m] == vote;
                assert(out[m] == vote);
            }
        } else {
            text::lemma_before_total(vote.member, last.member);
            assert(out == list.push(vote));
            assert forall|i: int, j: int| 0 <= i < j < out.len() implies text::before(
                (#[trigger] out[i]).member,
                (#[trigger] out[j]).member,
            ) by {
                if j == list.len() {
                    if i < list.len() - 1 {
                        assert(text::before(list[i].member, list[list.len() - 1].member));
                        text::lemma_before_transitive(list[i].member, last.member, vote.member);
                    }
                } else {
                    assert(out[i] == list[i] && out[j] == list[j]);
                }
            }
            assert(out[list.len() as int] == vote);
            assert forall|v: AttestationV| list.contains(v) implies #[trigger] out.contains(v) by {
                let k = choose|k: int| 0 <= k < list.len() && list[k] == v;
                assert(out[k] == v);
            }
            assert forall|v: AttestationV| #[trigger] out.contains(v) implies list.contains(v) || v
                == vote by {
                let k = choose|k: int| 0 <= k < out.len() && out[k] == v;
                if k < list.len() {
                    assert(list[k] == v);
                }
            }
        }
    }
}

/// Does a vote count: from nobody who declines, and vouched for?
pub open spec fn counts(
    identities: Seq<IdentityV>,
    bytes: Seq<u8>,
    decliners: Seq<Seq<char>>,
    vote: AttestationV,
) -> bool {
    !decliners.contains(vote.member) && votes::vouched(identities, bytes, vote.member, vote.sig)
}

/// Is there at most one signature under each name?
pub open spec fn one_each(sigs: Seq<AttestationV>) -> bool {
    forall|i: int, j: int|
        0 <= i < j < sigs.len() ==> (#[trigger] sigs[i]).member != (#[trigger] sigs[j]).member
}

/// The votes that count are in order of name, each name once, and every one
/// of them is a signature that counts. Where each name signed once, they are
/// all of those.
pub proof fn the_votes_that_count(
    identities: Seq<IdentityV>,
    bytes: Seq<u8>,
    decliners: Seq<Seq<char>>,
    sigs: Seq<AttestationV>,
)
    ensures
        by_name(votes::counted_votes(identities, bytes, decliners, sigs)),
        forall|v: AttestationV|
            #[trigger] votes::counted_votes(identities, bytes, decliners, sigs).contains(v)
                ==> sigs.contains(v) && counts(identities, bytes, decliners, v),
        one_each(sigs) ==> forall|v: AttestationV|
            sigs.contains(v) && counts(identities, bytes, decliners, v)
                ==> #[trigger] votes::counted_votes(identities, bytes, decliners, sigs).contains(v),
    decreases sigs.len(),
{
    if sigs.len() > 0 {
        let front = sigs.drop_last();
        let vote = sigs.last();
        the_votes_that_count(identities, bytes, decliners, front);
        let rest = votes::counted_votes(identities, bytes, decliners, front);
        let out = votes::counted_votes(identities, bytes, decliners, sigs);
        assert(sigs[sigs.len() - 1] == vote);
        if counts(identities, bytes, decliners, vote) {
            lemma_vote_placed(rest, vote);
        }
        assert forall|v: AttestationV| #[trigger] out.contains(v) implies sigs.contains(v)
            && counts(identities, bytes, decliners, v) by {
            if v != vote || !counts(identities, bytes, decliners, vote) {
                assert(rest.contains(v));
                let k = choose|k: int| 0 <= k < front.len() && front[k] == v;
                assert(sigs[k] == v);
            }
        }
        if one_each(sigs) {
            assert forall|i: int, j: int| 0 <= i < j < front.len() implies (
            #[trigger] front[i]).member != (#[trigger] front[j]).member by {
                assert(sigs[i] == front[i] && sigs[j] == front[j]);
            }
            if votes::signed_by(rest, vote.member) {
                let k = choose|k: int|
                    0 <= k < rest.len() && (#[trigger] rest[k]).member == vote.member;
                assert(rest.contains(rest[k]));
                let m = choose|m: int| 0 <= m < front.len() && front[m] == rest[k];
                assert(sigs[m] == front[m]);
                assert(sigs[m].member != sigs[sigs.len() - 1].member);
            }
            assert forall|v: AttestationV| sigs.contains(v) && counts(
                identities,
                bytes,
                decliners,
                v,
            ) implies #[trigger] out.contains(v) by {
                let k = choose|k: int| 0 <= k < sigs.len() && sigs[k] == v;
                if k < front.len() {
                    assert(front[k] == v);
                    assert(front.contains(v));
                    assert(rest.contains(v));
                }
            }
        }
    }
}

/// Two lists in order of name with the same votes are the same list.
proof fn lemma_same_votes(a: Seq<AttestationV>, b: Seq<AttestationV>)
    requires
        by_name(a),
        by_name(b),
        forall|v: AttestationV| #[trigger] a.contains(v) <==> b.contains(v),
    ensures
        a == b,
    decreases a.len(),
{
    if a.len() == 0 {
        if b.len() > 0 {
            assert(b.contains(b[0]));
            assert(a.contains(b[0]));
        }
        assert(a =~= b);
    } else {
        assert(a.contains(a.last()));
        assert(b.contains(a.last()));
        let n = b.len() as int;
        let k = choose|k: int| 0 <= k < b.len() && b[k] == a.last();
        assert(b.contains(b.last()));
        assert(a.contains(b.last()));
        let m = choose|m: int| 0 <= m < a.len() && a[m] == b.last();
        if m < a.len() - 1 && k < n - 1 {
            assert(text::before(a[m].member, a[a.len() - 1].member));
            assert(text::before(b[k].member, b[n - 1].member));
            text::lemma_before_transitive(a[m].member, a.last().member, b.last().member);
            text::lemma_before_irreflexive(a[m].member);
        }
        if m == a.len() - 1 && k < n - 1 {
            assert(text::before(b[k].member, b[n - 1].member));
            text::lemma_before_irreflexive(b[k].member);
        }
        if k == n - 1 && m < a.len() - 1 {
            assert(text::before(a[m].member, a[a.len() - 1].member));
            text::lemma_before_irreflexive(a[m].member);
        }
        assert(a.last() == b.last());
        let fa = a.drop_last();
        let fb = b.drop_last();
        assert forall|i: int, j: int| 0 <= i < j < fa.len() implies text::before(
            (#[trigger] fa[i]).member,
            (#[trigger] fa[j]).member,
        ) by {
            assert(a[i] == fa[i] && a[j] == fa[j]);
        }
        assert forall|i: int, j: int| 0 <= i < j < fb.len() implies text::before(
            (#[trigger] fb[i]).member,
            (#[trigger] fb[j]).member,
        ) by {
            assert(b[i] == fb[i] && b[j] == fb[j]);
        }
        assert forall|v: AttestationV| #[trigger] fa.contains(v) <==> fb.contains(v) by {
            if fa.contains(v) {
                let i = choose|i: int| 0 <= i < fa.len() && fa[i] == v;
                assert(a[i] == v);
                assert(a.contains(v));
                assert(text::before(a[i].member, a[a.len() - 1].member));
                text::lemma_before_irreflexive(v.member);
                let j = choose|j: int| 0 <= j < b.len() && b[j] == v;
                assert(j < fb.len());
                assert(fb[j] == v);
            }
            if fb.contains(v) {
                let i = choose|i: int| 0 <= i < fb.len() && fb[i] == v;
                assert(b[i] == v);
                assert(b.contains(v));
                assert(text::before(b[i].member, b[n - 1].member));
                text::lemma_before_irreflexive(v.member);
                assert(a.contains(v));
                let j = choose|j: int| 0 <= j < a.len() && a[j] == v;
                assert(j < fa.len());
                assert(fa[j] == v);
            }
        }
        lemma_same_votes(fa, fb);
        assert(a =~= fa.push(a.last()));
        assert(b =~= fb.push(b.last()));
    }
}

/// The order in which the signatures arrived does not matter: holders with
/// the same signatures, one for each name, count the same votes and seal the
/// same block.
pub proof fn the_order_of_arrival_does_not_matter(
    identities: Seq<IdentityV>,
    bytes: Seq<u8>,
    decliners: Seq<Seq<char>>,
    one: Seq<AttestationV>,
    other: Seq<AttestationV>,
)
    requires
        one_each(one),
        one_each(other),
        forall|v: AttestationV| #[trigger] one.contains(v) <==> other.contains(v),
    ensures
        votes::counted_votes(identities, bytes, decliners, one) == votes::counted_votes(
            identities,
            bytes,
            decliners,
            other,
        ),
{
    the_votes_that_count(identities, bytes, decliners, one);
    the_votes_that_count(identities, bytes, decliners, other);
    let a = votes::counted_votes(identities, bytes, decliners, one);
    let b = votes::counted_votes(identities, bytes, decliners, other);
    assert forall|v: AttestationV| #[trigger] a.contains(v) <==> b.contains(v) by {
        if a.contains(v) {
            assert(one.contains(v));
        }
        if b.contains(v) {
            assert(one.contains(v));
        }
    }
    lemma_same_votes(a, b);
}

/// Whatever a state has been through, each of its tables names a number once,
/// in ascending order.
pub proof fn the_tables_of_a_state_ascend(s: State)
    ensures
        card_laws::tables_ascend(s.deep_view()),
        table::keys_ascend(s.deep_view().pending_sigs),
        table::keys_ascend(s.deep_view().pending_blocks),
        table::keys_ascend(s.deep_view().fork_candidates),
        table::keys_ascend(s.deep_view().applied_sigs),
        table::keys_ascend(s.deep_view().pending_declines),
{
    table::a_table_ascends(s.proposals);
    table::a_table_ascends(s.proposal_changes);
    table::a_table_ascends(s.pending_sigs);
    table::a_table_ascends(s.pending_blocks);
    table::a_table_ascends(s.fork_candidates);
    table::a_table_ascends(s.applied_sigs);
    table::a_table_ascends(s.pending_declines);
}

} // verus!
