//! What is read of a chain: addresses, relays, features, decisions and the
//! history.

use crate::fold;
use crate::history;
use crate::model;
use crate::model::{
    AnchorV, BlockV, ChangeV, DeclarationV, EntryV, GroupV, MembershipOp,
    SealedV, SummaryV, Surface,
};
use crate::payload::PayloadV;
use crate::projection;
use crate::read_chain;
use crate::relays;
use crate::sealing;
use crate::signers;
use crate::state::{EffectV, SplitV, StateV};
use crate::summary_laws;
use crate::table;
use crate::text;
use crate::walk;
use vstd::prelude::*;

verus! {

/// What is on record for a member is the entry under its name.
proof fn lemma_anchor_of(anchors: Seq<AnchorV>, member: Seq<char>)
    requires
        summary_laws::anchors_ascend(anchors),
    ensures
        forall|pk: Seq<char>|
            history::anchor_of(anchors, member) == Some(pk) <==> #[trigger] anchors.contains(
                AnchorV { member, nostr_pk: pk },
            ),
    decreases anchors.len(),
{
    if anchors.len() > 0 {
        let front = anchors.drop_last();
        let top = anchors.last();
        assert(summary_laws::anchors_ascend(front)) by {
            assert forall|i: int, j: int| 0 <= i < j < front.len() implies text::before(
                (#[trigger] front[i]).member,
                (#[trigger] front[j]).member,
            ) by {
                assert(front[i] == anchors[i] && front[j] == anchors[j]);
            }
        }
        lemma_anchor_of(front, member);
        assert forall|pk: Seq<char>|
            history::anchor_of(anchors, member) == Some(pk) <==> #[trigger] anchors.contains(
                AnchorV { member, nostr_pk: pk },
            ) by {
            let a = AnchorV { member, nostr_pk: pk };
            if anchors.contains(a) {
                let k = choose|k: int| 0 <= k < anchors.len() && anchors[k] == a;
                if k < front.len() {
                    assert(front[k] == a);
                    assert(front.contains(a));
                    assert(text::before(anchors[k].member, anchors[anchors.len() - 1].member));
                    text::lemma_before_irreflexive(member);
                }
            }
            if history::anchor_of(anchors, member) == Some(pk) {
                if top.member == member {
                    assert(anchors[anchors.len() - 1] == a);
                } else {
                    assert(front.contains(a));
                    let k = choose|k: int| 0 <= k < front.len() && front[k] == a;
                    assert(anchors[k] == a);
                }
            }
        }
    }
}

/// The relays on record for a member are those under its name.
proof fn lemma_declaration_of(declared: Seq<DeclarationV>, member: Seq<char>)
    requires
        summary_laws::declarations_ascend(declared),
    ensures
        forall|r: Seq<Seq<char>>|
            history::declaration_of(declared, member) == Some(r) <==> #[trigger] declared.contains(
                DeclarationV { member, relays: r },
            ),
    decreases declared.len(),
{
    if declared.len() > 0 {
        let front = declared.drop_last();
        let top = declared.last();
        assert(summary_laws::declarations_ascend(front)) by {
            assert forall|i: int, j: int| 0 <= i < j < front.len() implies text::before(
                (#[trigger] front[i]).member,
                (#[trigger] front[j]).member,
            ) by {
                assert(front[i] == declared[i] && front[j] == declared[j]);
            }
        }
        lemma_declaration_of(front, member);
        assert forall|r: Seq<Seq<char>>|
            history::declaration_of(declared, member) == Some(r) <==> #[trigger] declared.contains(
                DeclarationV { member, relays: r },
            ) by {
            let d = DeclarationV { member, relays: r };
            if declared.contains(d) {
                let k = choose|k: int| 0 <= k < declared.len() && declared[k] == d;
                if k < front.len() {
                    assert(front[k] == d);
                    assert(front.contains(d));
                    assert(text::before(declared[k].member, declared[declared.len() - 1].member));
                    text::lemma_before_irreflexive(member);
                }
            }
            if history::declaration_of(declared, member) == Some(r) {
                if top.member == member {
                    assert(declared[declared.len() - 1] == d);
                } else {
                    assert(front.contains(d));
                    let k = choose|k: int| 0 <= k < front.len() && front[k] == d;
                    assert(declared[k] == d);
                }
            }
        }
    }
}

/// Does this change give that member a transport key?
pub open spec fn keys(change: ChangeV, member: Seq<char>) -> bool {
    change matches ChangeV::Membership { member: m, nostr_pk, .. } && m == member && nostr_pk
        is Some && nostr_pk->0.len() > 0
}

/// Does this change put that member down with relays?
pub open spec fn declares(change: ChangeV, member: Seq<char>) -> bool {
    change matches ChangeV::Membership { member: m, relays, .. } && m == member && relays.len() > 0
}

/// The key on record for a member is the one that the last block to give it one
/// gave it; where no block did, it is what was on record before.
pub proof fn the_latest_key_is_on_record(base: Seq<AnchorV>, blocks: Seq<BlockV>, member: Seq<char>)
    requires
        summary_laws::anchors_ascend(base),
    ensures
        summary_laws::anchors_ascend(history::anchors_through(base, blocks)),
        (forall|i: int| 0 <= i < blocks.len() ==> !keys((#[trigger] blocks[i]).change, member))
            ==> history::anchor_of(history::anchors_through(base, blocks), member)
            == history::anchor_of(base, member),
        forall|k: int|
            0 <= k < blocks.len() && keys((#[trigger] blocks[k]).change, member) && (forall|j: int|
                k < j < blocks.len() ==> !keys((#[trigger] blocks[j]).change, member))
                ==> history::anchor_of(history::anchors_through(base, blocks), member)
                == blocks[k].change->Membership_nostr_pk,
    decreases blocks.len(),
{
    if blocks.len() > 0 {
        let front = blocks.drop_last();
        let top = blocks.last();
        the_latest_key_is_on_record(base, front, member);
        let rest = history::anchors_through(base, front);
        let all = history::anchors_through(base, blocks);
        assert(blocks[blocks.len() - 1] == top);
        lemma_anchor_of(rest, member);
        match top.change {
            ChangeV::Membership { member: m, nostr_pk: Some(pk), .. } => {
                if pk.len() > 0 {
                    summary_laws::an_anchor_moves_one_seat(rest, m, pk);
                    lemma_anchor_of(all, member);
                    if m == member {
                        assert(all.contains(AnchorV { member, nostr_pk: pk }));
                    } else {
                        match history::anchor_of(rest, member) {
                            Some(x) => {
                                assert(rest.contains(AnchorV { member, nostr_pk: x }));
                                assert(all.contains(AnchorV { member, nostr_pk: x }));
                            },
                            None => {
                                if history::anchor_of(all, member) is Some {
                                    let x = history::anchor_of(all, member)->0;
                                    assert(all.contains(AnchorV { member, nostr_pk: x }));
                                    assert(rest.contains(AnchorV { member, nostr_pk: x }));
                                }
                            },
                        }
                    }
                }
            },
            _ => {},
        }
        if !keys(top.change, member) {
            assert(history::anchor_of(all, member) == history::anchor_of(rest, member));
            if forall|i: int| 0 <= i < blocks.len() ==> !keys((#[trigger] blocks[i]).change, member) {
                assert forall|i: int| 0 <= i < front.len() implies !keys(
                    (#[trigger] front[i]).change,
                    member,
                ) by {
                    assert(front[i] == blocks[i]);
                }
            }
        }
        assert forall|k: int|
            0 <= k < blocks.len() && keys((#[trigger] blocks[k]).change, member) && (forall|j: int|
                k < j < blocks.len() ==> !keys(
                    (#[trigger] blocks[j]).change,
                    member,
                )) implies history::anchor_of(all, member)
            == blocks[k].change->Membership_nostr_pk by {
            if k < front.len() {
                assert(!keys(blocks[blocks.len() - 1].change, member));
                assert(front[k] == blocks[k]);
                assert forall|j: int| k < j < front.len() implies !keys(
                    (#[trigger] front[j]).change,
                    member,
                ) by {
                    assert(front[j] == blocks[j]);
                }
            }
        }
    }
}

/// The relays on record for a member are those that the last block to put it
/// down with some named; where no block did, what was on record before.
pub proof fn the_latest_relays_are_on_record(
    base: Seq<DeclarationV>,
    blocks: Seq<BlockV>,
    member: Seq<char>,
)
    requires
        summary_laws::declarations_ascend(base),
    ensures
        summary_laws::declarations_ascend(history::declarations_through(base, blocks)),
        (forall|i: int| 0 <= i < blocks.len() ==> !declares((#[trigger] blocks[i]).change, member))
            ==> history::declaration_of(history::declarations_through(base, blocks), member)
            == history::declaration_of(base, member),
        forall|k: int|
            0 <= k < blocks.len() && declares((#[trigger] blocks[k]).change, member) && (forall|
                j: int,
            |
                k < j < blocks.len() ==> !declares((#[trigger] blocks[j]).change, member))
                ==> history::declaration_of(history::declarations_through(base, blocks), member)
                == Some(blocks[k].change->Membership_relays),
    decreases blocks.len(),
{
    if blocks.len() > 0 {
        let front = blocks.drop_last();
        let top = blocks.last();
        the_latest_relays_are_on_record(base, front, member);
        let rest = history::declarations_through(base, front);
        let all = history::declarations_through(base, blocks);
        assert(blocks[blocks.len() - 1] == top);
        lemma_declaration_of(rest, member);
        match top.change {
            ChangeV::Membership { member: m, relays: r, .. } => {
                if r.len() > 0 {
                    summary_laws::a_declaration_moves_one_seat(rest, m, r);
                    lemma_declaration_of(all, member);
                    if m == member {
                        assert(all.contains(DeclarationV { member, relays: r }));
                    } else {
                        match history::declaration_of(rest, member) {
                            Some(x) => {
                                assert(rest.contains(DeclarationV { member, relays: x }));
                                assert(all.contains(DeclarationV { member, relays: x }));
                            },
                            None => {
                                if history::declaration_of(all, member) is Some {
                                    let x = history::declaration_of(all, member)->0;
                                    assert(all.contains(DeclarationV { member, relays: x }));
                                    assert(rest.contains(DeclarationV { member, relays: x }));
                                }
                            },
                        }
                    }
                }
            },
            _ => {},
        }
        if !declares(top.change, member) {
            assert(history::declaration_of(all, member) == history::declaration_of(rest, member));
            if forall|i: int|
                0 <= i < blocks.len() ==> !declares((#[trigger] blocks[i]).change, member) {
                assert forall|i: int| 0 <= i < front.len() implies !declares(
                    (#[trigger] front[i]).change,
                    member,
                ) by {
                    assert(front[i] == blocks[i]);
                }
            }
        }
        assert forall|k: int|
            0 <= k < blocks.len() && declares((#[trigger] blocks[k]).change, member) && (forall|
                j: int,
            |
                k < j < blocks.len() ==> !declares(
                    (#[trigger] blocks[j]).change,
                    member,
                )) implies history::declaration_of(all, member) == Some(
            blocks[k].change->Membership_relays,
        ) by {
            if k < front.len() {
                assert(!declares(blocks[blocks.len() - 1].change, member));
                assert(front[k] == blocks[k]);
                assert forall|j: int| k < j < front.len() implies !declares(
                    (#[trigger] front[j]).change,
                    member,
                ) by {
                    assert(front[j] == blocks[j]);
                }
            }
        }
    }
}

/// Once a chain was projected, each member is addressed at the key that the
/// last block to give it one gave it; before any did, at the one the summary
/// has, else at its founding key.
pub proof fn a_member_is_addressed_at_its_latest_key(s: StateV, member: Seq<char>)
    requires
        s.anchors == s.projected_anchors(),
        s.checkpoint_blob is Some ==> summary_laws::anchors_ascend(s.checkpoint_blob->0.anchors),
    ensures
        forall|k: int|
            0 <= k < s.blocks.len() && keys((#[trigger] s.blocks[k]).change, member) && (forall|
                j: int,
            |
                k < j < s.blocks.len() ==> !keys((#[trigger] s.blocks[j]).change, member))
                ==> Some(s.address_of(member)) == s.blocks[k].change->Membership_nostr_pk,
        (forall|i: int| 0 <= i < s.blocks.len() ==> !keys((#[trigger] s.blocks[i]).change, member))
            ==> {
            &&& s.checkpoint_blob matches Some(blob) ==> forall|i: int|
                0 <= i < blob.anchors.len() && (#[trigger] blob.anchors[i]).member == member
                    ==> s.address_of(member) == blob.anchors[i].nostr_pk
            &&& (s.checkpoint_blob is None || forall|i: int|
                0 <= i < s.checkpoint_blob->0.anchors.len() ==> (
                #[trigger] s.checkpoint_blob->0.anchors[i]).member != member) ==> match s.replica {
                Some(r) => match signers::seat_of(r.identities, member) {
                    Some(seat) => s.address_of(member) == seat.nostr_pk,
                    None => s.address_of(member).len() == 0,
                },
                None => s.address_of(member).len() == 0,
            }
        },
{
    let base = match s.checkpoint_blob {
        Some(blob) => blob.anchors,
        None => Seq::empty(),
    };
    the_latest_key_is_on_record(base, s.blocks, member);
    lemma_anchor_of(base, member);
    match s.checkpoint_blob {
        Some(blob) => {
            assert forall|i: int|
                0 <= i < blob.anchors.len() && (
                #[trigger] blob.anchors[i]).member == member implies history::anchor_of(
                base,
                member,
            ) == Some(blob.anchors[i].nostr_pk) by {
                assert(base.contains(AnchorV { member, nostr_pk: blob.anchors[i].nostr_pk })) by {
                    assert(base[i] == AnchorV { member, nostr_pk: blob.anchors[i].nostr_pk });
                }
            }
        },
        None => {},
    }
    match history::anchor_of(base, member) {
        Some(x) => {
            assert(base.contains(AnchorV { member, nostr_pk: x }));
            let k = choose|k: int| 0 <= k < base.len() && base[k] == AnchorV { member, nostr_pk: x };
            assert(base[k].member == member);
        },
        None => {},
    }
}

/// A member reaches the relays that it declared last, and the governed pool
/// where it declared none.
pub proof fn a_member_reaches_what_it_declared(s: StateV, member: Seq<char>)
    requires
        s.member_relays == s.projected_declarations(),
        s.checkpoint_blob is None,
    ensures
        forall|k: int|
            0 <= k < s.blocks.len() && declares((#[trigger] s.blocks[k]).change, member) && (forall|
                j: int,
            |
                k < j < s.blocks.len() ==> !declares((#[trigger] s.blocks[j]).change, member))
                ==> s.relays_of(member) == s.blocks[k].change->Membership_relays,
        (forall|i: int|
            0 <= i < s.blocks.len() ==> !declares((#[trigger] s.blocks[i]).change, member))
            ==> s.relays_of(member) == s.pool(),
{
    the_latest_relays_are_on_record(Seq::empty(), s.blocks, member);
}

/// White space alone has no words, and a text without any is one word.
pub proof fn a_word_is_a_run_without_white_space(t: Seq<char>)
    ensures
        (forall|i: int| 0 <= i < t.len() ==> text::is_space(#[trigger] t[i])) ==> text::words_of(
            t,
        ).len() == 0,
        t.len() > 0 && (forall|i: int| 0 <= i < t.len() ==> !text::is_space(#[trigger] t[i]))
            ==> text::words_of(t) == seq![t],
    decreases t.len(),
{
    if t.len() > 0 {
        let front = t.drop_last();
        a_word_is_a_run_without_white_space(front);
        if forall|i: int| 0 <= i < t.len() ==> text::is_space(#[trigger] t[i]) {
            assert(text::is_space(t[t.len() - 1]));
            assert forall|i: int| 0 <= i < front.len() implies text::is_space(
                #[trigger] front[i],
            ) by {
                assert(front[i] == t[i]);
            }
        }
        if forall|i: int| 0 <= i < t.len() ==> !text::is_space(#[trigger] t[i]) {
            assert(!text::is_space(t[t.len() - 1]));
            assert forall|i: int| 0 <= i < front.len() implies !text::is_space(
                #[trigger] front[i],
            ) by {
                assert(front[i] == t[i]);
            }
            if t.len() == 1 {
                assert(front =~= Seq::empty());
                assert(text::words_of(front) =~= Seq::empty());
                assert(text::words_of(t) =~= seq![seq![t.last()]]);
                assert(seq![t.last()] =~= t);
            } else {
                assert(!text::is_space(t[t.len() - 2]));
                assert(front.push(t.last()) =~= t);
                let rest = text::words_of(front);
                assert(rest.drop_last() =~= Seq::empty());
                assert(text::words_of(t) =~= seq![t]);
            }
        }
    }
}

/// The words of two texts with white space between them are the words of the
/// one and then those of the other.
pub proof fn white_space_parts_words(a: Seq<char>, c: char, b: Seq<char>)
    requires
        text::is_space(c),
    ensures
        text::words_of(a.push(c) + b) == text::words_of(a) + text::words_of(b),
    decreases b.len(),
{
    let t = a.push(c) + b;
    if b.len() == 0 {
        assert(t =~= a.push(c));
        assert(t.drop_last() =~= a);
        assert(text::words_of(a) + text::words_of(b) =~= text::words_of(a));
    } else {
        let front = b.drop_last();
        white_space_parts_words(a, c, front);
        assert(t.drop_last() =~= a.push(c) + front);
        assert(t.last() == b.last());
        let rest = text::words_of(front);
        if !text::is_space(b.last()) {
            if b.len() == 1 {
                assert(t[t.len() - 2] == c);
                assert(text::words_of(t) =~= text::words_of(a) + text::words_of(b));
            } else {
                assert(t[t.len() - 2] == b[b.len() - 2]);
                if !text::is_space(b[b.len() - 2]) {
                    assert(front.last() == b[b.len() - 2]);
                    lemma_has_word(front);
                    assert((text::words_of(a) + rest).drop_last() =~= text::words_of(a)
                        + rest.drop_last());
                    assert(text::words_of(t) =~= text::words_of(a) + text::words_of(b));
                } else {
                    assert(text::words_of(t) =~= text::words_of(a) + text::words_of(b));
                }
            }
        }
    }
}

/// A text that ends in a word has one.
proof fn lemma_has_word(t: Seq<char>)
    requires
        t.len() > 0,
        !text::is_space(t.last()),
    ensures
        text::words_of(t).len() > 0,
{
}

/// A pool edit takes the pool's place where it names a relay that the pool
/// has, or where there was no pool; otherwise the pool stays.
pub proof fn a_pool_edit_replaces_what_it_shares_a_relay_with(
    pool: Seq<Seq<char>>,
    entries: Seq<EntryV>,
    entry: EntryV,
)
    ensures
        ({
            let before = history::pool_over(pool, entries);
            let now = history::pool_over(pool, entries.push(entry));
            let named = match entry.payload.text("value"@) {
                Some(t) => text::words_of(t),
                None => Seq::empty(),
            };
            now == (if entry.payload.text("op"@) == Some("set_relays"@) && named.len() > 0 && (
            before.len() == 0 || have_one_in_common(before, named)) {
                named
            } else {
                before
            })
        }),
        history::pool_over(pool, Seq::empty()) == pool,
{
    let all = entries.push(entry);
    assert(all.drop_last() =~= entries);
    let before = history::pool_over(pool, entries);
    let named = text::words_of(entry.payload.value_text());
    assert(text::words_of(Seq::empty()) =~= Seq::empty());
    lemma_in_common(before, named);
}

/// Is some entry of the one an entry of the other?
pub open spec fn have_one_in_common(x: Seq<Seq<char>>, y: Seq<Seq<char>>) -> bool {
    exists|i: int, j: int|
        0 <= i < x.len() && 0 <= j < y.len() && #[trigger] x[i] == #[trigger] y[j]
}

/// Lists that share an entry have one in common.
proof fn lemma_in_common(x: Seq<Seq<char>>, y: Seq<Seq<char>>)
    ensures
        history::share_one(x, y) <==> have_one_in_common(x, y),
{
    if history::share_one(x, y) {
        let i = choose|i: int| 0 <= i < x.len() && y.contains(#[trigger] x[i]);
        let j = choose|j: int| 0 <= j < y.len() && y[j] == x[i];
        assert(x[i] == y[j]);
    }
    if have_one_in_common(x, y) {
        let (i, j) = choose|i: int, j: int|
            0 <= i < x.len() && 0 <= j < y.len() && #[trigger] x[i] == #[trigger] y[j];
        assert(y.contains(x[i]));
    }
}

/// The founding pool is the one that the founding was sealed with, and the
/// summary's where the founding is below the cut.
pub proof fn the_founding_pool_is_what_was_sealed(
    checkpoint: Option<SummaryV>,
    blocks: Seq<BlockV>,
)
    ensures
        checkpoint matches Some(blob) ==> history::founded_pool(checkpoint, blocks) == blob.relays,
        checkpoint is None && blocks.len() > 0 && blocks[0].change is Genesis
            ==> history::founded_pool(checkpoint, blocks) == blocks[0].change->Genesis_relays,
{
}

/// A feature is on exactly where the founding or an applied edit named it.
pub proof fn a_feature_is_on_where_it_was_voted(
    features: Seq<Seq<char>>,
    entries: Seq<EntryV>,
    f: Seq<char>,
)
    requires
        text::ascending(features),
    ensures
        text::ascending(relays::features_over(features, entries)),
        relays::features_over(features, entries).contains(f) <==> (features.contains(f) || exists|
            i: int,
        |
            0 <= i < entries.len() && (#[trigger] entries[i]).payload.text("op"@) == Some(
                "set_features"@,
            ) && entries[i].payload.text("value"@) is Some && text::words_of(
                entries[i].payload.text("value"@)->0,
            ).contains(f)),
    decreases entries.len(),
{
    if entries.len() > 0 {
        let front = entries.drop_last();
        let top = entries.last();
        a_feature_is_on_where_it_was_voted(features, front, f);
        let rest = relays::features_over(features, front);
        assert(entries[entries.len() - 1] == top);
        assert(text::words_of(Seq::empty()) =~= Seq::empty());
        if top.payload.has_op("set_features"@) {
            relays::adding_names_keeps_them(rest, text::words_of(top.payload.value_text()));
        }
        if exists|i: int|
            0 <= i < front.len() && (#[trigger] front[i]).payload.text("op"@) == Some(
                "set_features"@,
            ) && front[i].payload.text("value"@) is Some && text::words_of(
                front[i].payload.text("value"@)->0,
            ).contains(f) {
            let i = choose|i: int|
                0 <= i < front.len() && (#[trigger] front[i]).payload.text("op"@) == Some(
                    "set_features"@,
                ) && front[i].payload.text("value"@) is Some && text::words_of(
                    front[i].payload.text("value"@)->0,
                ).contains(f);
            assert(entries[i] == front[i]);
        }
        if exists|i: int|
            0 <= i < entries.len() && (#[trigger] entries[i]).payload.text("op"@) == Some(
                "set_features"@,
            ) && entries[i].payload.text("value"@) is Some && text::words_of(
                entries[i].payload.text("value"@)->0,
            ).contains(f) {
            let i = choose|i: int|
                0 <= i < entries.len() && (#[trigger] entries[i]).payload.text("op"@) == Some(
                    "set_features"@,
                ) && entries[i].payload.text("value"@) is Some && text::words_of(
                    entries[i].payload.text("value"@)->0,
                ).contains(f);
            if i < front.len() {
                assert(front[i] == entries[i]);
            }
        }
    }
}

/// The founding features are those that were ratified; a founding that says
/// nothing of features has the memory. The organization and the chat need no
/// feature, and every other surface does.
pub proof fn the_founding_features_are_what_was_ratified(s: StateV, f: Seq<char>)
    ensures
        s.replica is Some && s.replica->0.features is Some ==> (s.founding_features().contains(f)
            <==> s.replica->0.features->0.contains(f)),
        s.replica is None || s.replica->0.features is None ==> (s.founding_features().contains(f)
            <==> f == "memory"@),
        !relays::is_optional(Surface::Organization),
        !relays::is_optional(Surface::Chat),
        relays::is_optional(Surface::Memory),
        relays::is_optional(Surface::Quests),
        relays::is_optional(Surface::Vault),
        relays::is_optional(Surface::Wallet),
{
    if s.replica is Some && s.replica->0.features is Some {
        relays::adding_names_keeps_them(Seq::empty(), s.replica->0.features->0);
    } else {
        let one = seq!["memory"@];
        assert(one[0] == "memory"@);
    }
}

/// Do the two have relays on record, and none in common?
pub open spec fn apart(s: StateV, a: Seq<char>, b: Seq<char>) -> bool {
    let x = s.relays_of(a);
    let y = s.relays_of(b);
    &&& x.len() > 0
    &&& y.len() > 0
    &&& forall|i: int, j: int|
        0 <= i < x.len() && 0 <= j < y.len() ==> #[trigger] x[i] != #[trigger] y[j]
}

/// Two members are split where they have relays and share none.
proof fn lemma_split(s: StateV, a: Seq<char>, b: Seq<char>)
    ensures
        s.split(a, b) <==> apart(s, a, b),
{
    let x = s.relays_of(a);
    let y = s.relays_of(b);
    if history::share_one(x, y) {
        let i = choose|i: int| 0 <= i < x.len() && y.contains(#[trigger] x[i]);
        let j = choose|j: int| 0 <= j < y.len() && y[j] == x[i];
        assert(x[i] == y[j]);
    } else if x.len() > 0 && y.len() > 0 {
        assert forall|i: int, j: int| 0 <= i < x.len() && 0 <= j < y.len() implies #[trigger] x[i]
            != #[trigger] y[j] by {
            if x[i] == y[j] {
                assert(y.contains(x[i]));
            }
        }
    }
}

/// The splits of a seat with later ones.
proof fn lemma_splits_of(s: StateV, i: int, j: int, end: int)
    requires
        0 <= i < j,
        end <= s.roster().len(),
    ensures
        forall|p: SplitV| #[trigger]
            s.splits_of(i, j, end).contains(p) <==> exists|k: int|
                j <= k < end && p == (SplitV { a: s.roster()[i], b: #[trigger] s.roster()[k] })
                    && apart(s, p.a, p.b),
    decreases end - j,
{
    let out = s.splits_of(i, j, end);
    let r = s.roster();
    if j < end {
        let rest = s.splits_of(i, j, end - 1);
        lemma_splits_of(s, i, j, end - 1);
        lemma_split(s, r[i], r[end - 1]);
        assert forall|p: SplitV| #[trigger] out.contains(p) <==> exists|k: int|
            j <= k < end && p == (SplitV { a: r[i], b: #[trigger] r[k] }) && apart(s, p.a, p.b) by {
            if out.contains(p) {
                let n = choose|n: int| 0 <= n < out.len() && out[n] == p;
                if n < rest.len() {
                    assert(rest[n] == p);
                    assert(rest.contains(p));
                } else {
                    assert(p == SplitV { a: r[i], b: r[end - 1] });
                }
            }
            if exists|k: int|
                j <= k < end && p == (SplitV { a: r[i], b: #[trigger] r[k] }) && apart(
                    s,
                    p.a,
                    p.b,
                ) {
                let k = choose|k: int|
                    j <= k < end && p == (SplitV { a: r[i], b: #[trigger] r[k] }) && apart(
                        s,
                        p.a,
                        p.b,
                    );
                if k < end - 1 {
                    assert(r[k] == p.b);
                    assert(rest.contains(p));
                    let n = choose|n: int| 0 <= n < rest.len() && rest[n] == p;
                    assert(out[n] == p);
                } else {
                    assert(out[rest.len() as int] == p);
                }
            }
        }
    }
}

/// The splits of the first seats.
proof fn lemma_splits_upto(s: StateV, n: int)
    requires
        n <= s.roster().len(),
    ensures
        forall|p: SplitV| #[trigger]
            s.splits_upto(n).contains(p) <==> exists|i: int, k: int|
                0 <= i < n && i < k < s.roster().len() && p == (SplitV {
                    a: #[trigger] s.roster()[i],
                    b: #[trigger] s.roster()[k],
                }) && apart(s, p.a, p.b),
    decreases n,
{
    let out = s.splits_upto(n);
    let r = s.roster();
    if n > 0 {
        let rest = s.splits_upto(n - 1);
        let more = s.splits_of(n - 1, n, r.len() as int);
        lemma_splits_upto(s, n - 1);
        lemma_splits_of(s, n - 1, n, r.len() as int);
        assert forall|p: SplitV| #[trigger] out.contains(p) <==> exists|i: int, k: int|
            0 <= i < n && i < k < r.len() && p == (SplitV {
                a: #[trigger] r[i],
                b: #[trigger] r[k],
            }) && apart(s, p.a, p.b) by {
            if out.contains(p) {
                let m = choose|m: int| 0 <= m < out.len() && out[m] == p;
                if m < rest.len() {
                    assert(rest[m] == p);
                    assert(rest.contains(p));
                } else {
                    assert(more[m - rest.len()] == p);
                    assert(more.contains(p));
                    let k = choose|k: int|
                        n <= k < r.len() && p == (SplitV { a: r[n - 1], b: #[trigger] r[k] })
                            && apart(s, p.a, p.b);
                    assert(r[n - 1] == p.a && r[k] == p.b);
                }
            }
            if exists|i: int, k: int|
                0 <= i < n && i < k < r.len() && p == (SplitV {
                    a: #[trigger] r[i],
                    b: #[trigger] r[k],
                }) && apart(s, p.a, p.b) {
                let (i, k) = choose|i: int, k: int|
                    0 <= i < n && i < k < r.len() && p == (SplitV {
                        a: #[trigger] r[i],
                        b: #[trigger] r[k],
                    }) && apart(s, p.a, p.b);
                if i < n - 1 {
                    assert(r[i] == p.a && r[k] == p.b);
                    assert(rest.contains(p));
                    let m = choose|m: int| 0 <= m < rest.len() && rest[m] == p;
                    assert(out[m] == p);
                } else {
                    assert(r[k] == p.b);
                    assert(more.contains(p));
                    let m = choose|m: int| 0 <= m < more.len() && more[m] == p;
                    assert(out[rest.len() + m] == p);
                }
            }
        }
    }
}

/// The splits shown are exactly the pairs of seats that have relays on record
/// and share none, each pair in roster order.
pub proof fn a_split_is_a_pair_without_a_shared_relay(s: StateV, p: SplitV)
    ensures
        s.splits().contains(p) <==> exists|i: int, k: int|
            0 <= i < k < s.roster().len() && p == (SplitV {
                a: #[trigger] s.roster()[i],
                b: #[trigger] s.roster()[k],
            }) && apart(s, p.a, p.b),
{
    lemma_splits_upto(s, s.roster().len() as int);
}

/// The running transport moves to the governed pool where that is another one
/// and not empty, and the host is told which; otherwise nothing moves.
pub proof fn the_transport_follows_the_pool(s: StateV)
    ensures
        ({
            let w = s.pool_adopted();
            let moves = s.live_relays is Some && s.pool().len() > 0 && s.live_relays->0
                != s.pool();
            &&& moves ==> w.live_relays == Some(s.pool()) && w.effects == s.effects.push(
                EffectV::PoolMoved { relays: s.pool() },
            )
            &&& !moves ==> w == s
        }),
{
}

/// Is `entries` what the groups list under that surface: the entries of the
/// first group of it, or none?
pub open spec fn listed(groups: Seq<GroupV>, surface: Surface, entries: Seq<EntryV>) -> bool {
    ||| entries.len() == 0 && forall|g: int|
        0 <= g < groups.len() ==> (#[trigger] groups[g]).surface != surface
    ||| exists|g: int|
        0 <= g < groups.len() && (#[trigger] groups[g]).surface == surface && groups[g].entries
            == entries && forall|j: int| 0 <= j < g ==> (#[trigger] groups[j]).surface != surface
}

/// The group of a surface is the first of it.
proof fn lemma_group_at(groups: Seq<GroupV>, surface: Surface)
    ensures
        fold::group_at(groups, surface) <= groups.len(),
        fold::group_at(groups, surface) < groups.len() ==> groups[fold::group_at(
            groups,
            surface,
        ) as int].surface == surface,
        forall|j: int|
            0 <= j < fold::group_at(groups, surface) ==> (#[trigger] groups[j]).surface != surface,
    decreases groups.len(),
{
    if groups.len() > 0 && groups[0].surface != surface {
        let rest = groups.skip(1);
        lemma_group_at(rest, surface);
        assert forall|j: int| 0 <= j < fold::group_at(groups, surface) implies (
        #[trigger] groups[j]).surface != surface by {
            if j > 0 {
                assert(rest[j - 1] == groups[j]);
            }
        }
    }
}

/// What a surface lists is read as its entries.
proof fn lemma_listed(groups: Seq<GroupV>, surface: Surface, entries: Seq<EntryV>)
    ensures
        listed(groups, surface, entries) <==> fold::entries_of(groups, surface) == entries,
{
    lemma_group_at(groups, surface);
    let at = fold::group_at(groups, surface) as int;
    let bare = entries.len() == 0 && forall|g: int|
        0 <= g < groups.len() ==> (#[trigger] groups[g]).surface != surface;
    if bare {
        if at < groups.len() {
            assert(groups[at].surface != surface);
        }
        assert(entries =~= Seq::empty());
    } else if listed(groups, surface, entries) {
        let g = choose|g: int|
            0 <= g < groups.len() && (#[trigger] groups[g]).surface == surface
                && groups[g].entries == entries && forall|j: int|
                0 <= j < g ==> (#[trigger] groups[j]).surface != surface;
        if g < at {
            assert(groups[g].surface != surface);
        } else if at < g {
            assert(groups[at].surface != surface);
        }
    } else if at < groups.len() {
        assert(groups[at].surface == surface);
    }
}

/// One more entry is listed last under its own surface, and under no other.
pub proof fn lemma_group_with(groups: Seq<GroupV>, surface: Surface, entry: EntryV, other: Surface)
    ensures
        fold::entries_of(projection::group_with(groups, surface, entry), other) == (if other
            == surface {
            fold::entries_of(groups, surface).push(entry)
        } else {
            fold::entries_of(groups, other)
        }),
{
    let out = projection::group_with(groups, surface, entry);
    lemma_group_at(groups, surface);
    lemma_group_at(groups, other);
    lemma_group_at(out, other);
    let at = fold::group_at(groups, surface) as int;
    let mine = fold::group_at(groups, other) as int;
    let now = fold::group_at(out, other) as int;
    if at < groups.len() {
        assert(now == mine) by {
            if now < mine {
                assert(out[now].surface == groups[now].surface);
                assert(groups[now].surface != other);
            } else if mine < now {
                assert(out[mine].surface == groups[mine].surface);
                assert(out[mine].surface != other);
            }
        }
    } else {
        if other == surface {
            assert(out[groups.len() as int].surface == surface);
            if now < groups.len() {
                assert(out[now] == groups[now]);
                assert(groups[now].surface != surface);
            }
            assert(Seq::<EntryV>::empty().push(entry) =~= seq![entry]);
        } else {
            if mine < groups.len() {
                assert(out[mine] == groups[mine]);
                if now < mine {
                    assert(out[now] == groups[now]);
                    assert(groups[now].surface != other);
                } else if mine < now {
                    assert(out[mine].surface != other);
                }
            } else if now < out.len() {
                if now < groups.len() {
                    assert(out[now] == groups[now]);
                    assert(groups[now].surface != other);
                }
            }
        }
    }
}

/// Under each surface a projected chain lists every decision that its blocks
/// applied there, in order, after what stood there before.
pub proof fn every_decision_is_listed_in_order(
    base: Seq<GroupV>,
    blocks: Seq<BlockV>,
    surface: Surface,
    before: Seq<EntryV>,
)
    requires
        listed(base, surface, before),
    ensures
        listed(
            projection::groups_through(base, blocks),
            surface,
            before + blocks.filter(
                |b: BlockV| b.change is Applied && b.change->Applied_surface == surface,
            ).map_values(
                |b: BlockV|
                    EntryV {
                        id: b.change->Applied_proposal_id,
                        payload: b.change->Applied_payload,
                    },
            ),
        ),
    decreases blocks.len(),
{
    reveal(Seq::filter);
    let pass = |b: BlockV| b.change is Applied && b.change->Applied_surface == surface;
    let f = |b: BlockV|
        EntryV { id: b.change->Applied_proposal_id, payload: b.change->Applied_payload };
    let more = blocks.filter(pass).map_values(f);
    lemma_listed(base, surface, before);
    lemma_listed(projection::groups_through(base, blocks), surface, before + more);
    if blocks.len() == 0 {
        assert(before + more =~= before);
    } else {
        let front = blocks.drop_last();
        let top = blocks.last();
        every_decision_is_listed_in_order(base, front, surface, before);
        let rest = projection::groups_through(base, front);
        let less = front.filter(pass).map_values(f);
        lemma_listed(rest, surface, before + less);
        match top.change {
            ChangeV::Applied { proposal_id, surface: at, payload } => {
                lemma_group_with(rest, at, EntryV { id: proposal_id, payload }, surface);
            },
            _ => {},
        }
        if pass(top) {
            assert(more =~= less.push(f(top)));
            assert(before + more =~= (before + less).push(f(top)));
        } else {
            assert(more =~= less);
        }
    }
}

/// Who signed a decision is on record as its block has it: the last block that
/// applied it.
pub proof fn who_signed_a_decision_is_on_record(blocks: Seq<BlockV>, k: int)
    requires
        0 <= k < blocks.len(),
        blocks[k].change is Applied,
        forall|j: int|
            k < j < blocks.len() && (#[trigger] blocks[j]).change is Applied
                ==> blocks[j].change->Applied_proposal_id
                != blocks[k].change->Applied_proposal_id,
    ensures
        table::get(
            projection::applied_sigs_through(blocks),
            blocks[k].change->Applied_proposal_id,
        ) == Some(blocks[k].sigs),
    decreases blocks.len(),
{
    let front = blocks.drop_last();
    let top = blocks.last();
    let id = blocks[k].change->Applied_proposal_id;
    let rest = projection::applied_sigs_through(front);
    if k < front.len() {
        assert(front[k] == blocks[k]);
        assert forall|j: int|
            k < j < front.len() && (
            #[trigger] front[j]).change is Applied implies front[j].change->Applied_proposal_id
            != front[k].change->Applied_proposal_id by {
            assert(front[j] == blocks[j]);
        }
        who_signed_a_decision_is_on_record(front, k);
    }
    match top.change {
        ChangeV::Applied { proposal_id, .. } => {
            assert(blocks[blocks.len() - 1] == top);
            table::reading_a_put(rest, proposal_id, top.sigs, id);
        },
        _ => {},
    }
}

/// A chain that verifies for this holder is adopted whole, with the head it
/// verifies to and the roster of that head; any other leaves no chain and no
/// head.
pub proof fn only_a_verified_chain_is_adopted(s: StateV, chain: Seq<BlockV>)
    ensures
        ({
            let w = s.adopting(chain);
            match s.walked_here(chain) {
                Ok(walk) => {
                    &&& w.blocks == chain
                    &&& w.head == Some(walk.head)
                    &&& s.replica is Some ==> w.replica is Some && w.replica->0.identities
                        == walk.head.identities && w.replica->0.roster.len()
                        == walk.head.identities.len() && forall|i: int|
                        0 <= i < walk.head.identities.len() ==> #[trigger] w.replica->0.roster[i]
                            == walk.head.identities[i].member
                    &&& w.anchors == w.projected_anchors()
                    &&& w.member_relays == w.projected_declarations()
                    &&& w.applied == w.projected_groups()
                },
                Err(e) => w.blocks.len() == 0 && w.head is None && w.checkpoint_blob is None,
            }
        }),
        s.checkpoint_blob is None ==> s.walked_here(chain) == walk::walked(chain),
        s.checkpoint_blob matches Some(blob) ==> s.walked_here(chain) == walk::walked_suffix(
            blob,
            chain,
            s.rid(),
        ),
{
    match s.walked_here(chain) {
        Ok(walk) => {
            let taken = (StateV {
                blocks: chain,
                head: Some(walk.head),
                walk: Some(walk),
                ..s
            }).minting_past_chain();
            sealing::lemma_chain_applied_frame(taken);
            let applied = StateV {
                applied: taken.projected_groups(),
                applied_sigs: projection::applied_sigs_through(taken.blocks),
                ..taken
            };
            sealing::lemma_settled_frame(applied.doing(EffectV::AppliedReset));
        },
        Err(e) => {},
    }
}

/// The first block of a sealed roster says what was sealed, and the
/// constitution that is read back from it is the same; a founding without an
/// id, or not attested by as many as there are seats, makes none.
pub proof fn a_founding_block_seals_its_roster(sealed: SealedV)
    ensures
        ({
            let made = projection::genesis_of(sealed);
            let founds = sealed.republic_id.len() > 0 && sealed.identities.len() > 0
                && sealed.attestations.len() == sealed.identities.len();
            &&& !founds ==> made.len() == 0
            &&& founds ==> {
                &&& made.len() == 1
                &&& made[0].height == 0
                &&& made[0].prev == crate::canonical::GENESIS_PREV@
                &&& walk::sealed_by(made[0]) == Some(sealed)
            }
        }),
{
}

/// A row of the history shows its block: its height, who signed it, and what
/// it changed.
pub proof fn a_row_shows_its_block(block: BlockV)
    ensures
        ({
            let row = history::row_of(block);
            &&& row.height == block.height
            &&& row.signers.len() == block.sigs.len()
            &&& forall|i: int|
                0 <= i < block.sigs.len() ==> #[trigger] row.signers[i] == block.sigs[i].member
            &&& match block.change {
                ChangeV::Genesis { name, .. } => row.kind == "genesis"@ && row.payload
                    == PayloadV::Text(name) && row.surface.len() == 0 && row.proposal_id == 0,
                ChangeV::Applied { proposal_id, surface, payload } => row.kind == "applied"@
                    && row.payload == payload && row.proposal_id == proposal_id && row.surface
                    == (match surface {
                    Surface::Organization => "organization"@,
                    Surface::Chat => "chat"@,
                    Surface::Memory => "memory"@,
                    Surface::Quests => "quests"@,
                    Surface::Vault => "vault"@,
                    Surface::Wallet => "wallet"@,
                }),
                ChangeV::Membership { op, member, .. } => row.kind == "membership"@ && row.payload
                    == PayloadV::Text(
                    (if op == MembershipOp::Restored {
                        "restored"@
                    } else {
                        "joined"@
                    }) + " "@ + member,
                ) && row.surface.len() == 0 && row.proposal_id == 0,
                ChangeV::Checkpoint { upto, .. } => row.kind == "checkpoint"@ && row.payload
                    == PayloadV::Count(upto) && row.surface.len() == 0 && row.proposal_id == 0,
            }
        }),
{
}

/// The history shows every held block, the newest first; then what the summary
/// keeps, the newest first; and the founding last, signed by every seat.
pub proof fn the_history_runs_from_the_newest(s: StateV)
    ensures
        ({
            let rows = s.history();
            let n = s.blocks.len() as int;
            &&& rows.len() >= n
            &&& forall|i: int|
                0 <= i < n ==> #[trigger] rows[i] == history::row_of(s.blocks[n - 1 - i])
            &&& s.checkpoint_blob is None ==> rows.len() == n
            &&& s.checkpoint_blob matches Some(blob) ==> {
                let kept = projection::decisions_in(blob.applied);
                &&& rows.len() == n + kept.len() + 1
                &&& forall|i: int|
                    0 <= i < kept.len() ==> {
                        let row = #[trigger] rows[n + i];
                        let d = kept[kept.len() - 1 - i];
                        &&& row.height == 0
                        &&& row.kind == "applied"@
                        &&& row.payload == d.payload
                        &&& row.proposal_id == d.id
                        &&& row.surface == model::surface_name(d.surface)
                        &&& row.signers.len() == 0
                    }
                &&& rows.last().kind == "genesis"@
                &&& rows.last().height == 0
                &&& rows.last().payload == PayloadV::Text(blob.founding_name)
                &&& rows.last().signers.len() == blob.founding_identities.len()
                &&& forall|i: int|
                    0 <= i < blob.founding_identities.len() ==> #[trigger] rows.last().signers[i]
                        == blob.founding_identities[i].member
            }
        }),
{
    match s.checkpoint_blob {
        Some(blob) => {
            let kept = projection::decisions_in(blob.applied);
            let top = read_chain::rows_of(s.blocks);
            let low = read_chain::rows_below(kept);
            let rows = s.history();
            assert(rows.len() == top.len() + low.len() + 1);
            assert forall|i: int| 0 <= i < kept.len() implies ({
                let row = #[trigger] rows[s.blocks.len() + i];
                let d = kept[kept.len() - 1 - i];
                &&& row.height == 0
                &&& row.kind == "applied"@
                &&& row.payload == d.payload
                &&& row.proposal_id == d.id
                &&& row.surface == model::surface_name(d.surface)
                &&& row.signers.len() == 0
            }) by {
                assert(rows[s.blocks.len() + i] == low[i]);
            }
        },
        None => {},
    }
}

/// What a summary keeps is every entry of every group, group by group and in
/// order.
pub proof fn every_kept_entry_is_a_decision(groups: Seq<GroupV>, g: int, i: int)
    requires
        0 <= g < groups.len(),
        0 <= i < groups[g].entries.len(),
    ensures
        ({
            let at = projection::decisions_in(groups.take(g)).len() + i;
            let all = projection::decisions_in(groups);
            &&& at < all.len()
            &&& all[at as int].id == groups[g].entries[i].id
            &&& all[at as int].surface == groups[g].surface
            &&& all[at as int].payload == groups[g].entries[i].payload
        }),
    decreases groups.len(),
{
    let front = groups.drop_last();
    if g == groups.len() - 1 {
        assert(groups.take(g) =~= front);
    } else {
        assert(front[g] == groups[g]);
        assert(front.take(g) =~= groups.take(g));
        every_kept_entry_is_a_decision(front, g, i);
    }
}

/// The splits of the present are noted, and those noted before stay.
pub proof fn a_present_split_is_noted(s: StateV, p: SplitV)
    ensures
        s.noting_splits().split_noted.contains(p) <==> (s.split_noted.contains(p)
            || s.splits().contains(p)),
        s.noting_splits() == (StateV { split_noted: s.noting_splits().split_noted, ..s }),
{
    lemma_noted(s.split_noted, s.splits(), p);
}

/// What is noted is what was and what is added.
proof fn lemma_noted(noted: Seq<SplitV>, splits: Seq<SplitV>, p: SplitV)
    ensures
        relays::splits_noted(noted, splits).contains(p) <==> (noted.contains(p) || splits.contains(
            p,
        )),
    decreases splits.len(),
{
    if splits.len() > 0 {
        let front = splits.drop_last();
        let top = splits.last();
        lemma_noted(noted, front, p);
        let rest = relays::splits_noted(noted, front);
        let out = relays::splits_noted(noted, splits);
        assert(splits.contains(p) <==> front.contains(p) || p == top) by {
            if front.contains(p) {
                let k = choose|k: int| 0 <= k < front.len() && front[k] == p;
                assert(splits[k] == p);
            }
            if p == top {
                assert(splits[splits.len() - 1] == p);
            }
            if splits.contains(p) && p != top {
                let k = choose|k: int| 0 <= k < splits.len() && splits[k] == p;
                assert(front[k] == p);
            }
        }
        if !rest.contains(top) {
            assert(out.contains(p) <==> rest.contains(p) || p == top) by {
                if rest.contains(p) {
                    let k = choose|k: int| 0 <= k < rest.len() && rest[k] == p;
                    assert(out[k] == p);
                }
                assert(out[rest.len() as int] == top);
                if out.contains(p) && p != top {
                    let k = choose|k: int| 0 <= k < out.len() && out[k] == p;
                    assert(rest[k] == p);
                }
            }
        }
    }
}

} // verus!
