//! What a summary keeps of the blocks it stands for.

use crate::chain_laws;
use crate::fold;
use crate::list_laws;
use crate::model::{
    AnchorV, BlockV, ChangeV, DeclarationV, EntryV, GroupV, MembershipOp, SummaryV, Surface,
};
use crate::payload::PayloadV;
use crate::text;
use vstd::prelude::*;

verus! {

/// Do the two payloads settle the same thing, so that the later one takes the
/// earlier one's place? The name, the charter, the image (set or removed), and
/// each member's own image and description are such things.
pub open spec fn settle_the_same(a: PayloadV, b: PayloadV) -> bool {
    let x = a.text("op"@);
    let y = b.text("op"@);
    ||| x == Some("set_name"@) && y == Some("set_name"@)
    ||| x == Some("set_charter"@) && y == Some("set_charter"@)
    ||| (x == Some("set_image"@) || x == Some("remove_image"@)) && (y == Some("set_image"@) || y
        == Some("remove_image"@))
    ||| x == Some("set_member_image"@) && y == Some("set_member_image"@) && a.text("member"@)
        is Some && a.text("member"@) == b.text("member"@)
    ||| x == Some("set_member_desc"@) && y == Some("set_member_desc"@) && a.text("member"@)
        is Some && a.text("member"@) == b.text("member"@)
}

/// The operations that settle something are told apart by their names.
proof fn lemma_ops()
    ensures
        "set_name"@ != "set_charter"@,
        "set_name"@ != "set_image"@,
        "set_name"@ != "remove_image"@,
        "set_name"@ != "set_member_image"@,
        "set_name"@ != "set_member_desc"@,
        "set_charter"@ != "set_image"@,
        "set_charter"@ != "remove_image"@,
        "set_charter"@ != "set_member_image"@,
        "set_charter"@ != "set_member_desc"@,
        "set_image"@ != "remove_image"@,
        "set_image"@ != "set_member_image"@,
        "set_image"@ != "set_member_desc"@,
        "remove_image"@ != "set_member_image"@,
        "remove_image"@ != "set_member_desc"@,
        "set_member_image"@ != "set_member_desc"@,
{
    reveal_strlit("set_name");
    reveal_strlit("set_charter");
    reveal_strlit("set_image");
    reveal_strlit("remove_image");
    reveal_strlit("set_member_image");
    reveal_strlit("set_member_desc");
    assert("set_name"@.len() == 8);
    assert("set_charter"@.len() == 11);
    assert("set_image"@.len() == 9);
    assert("remove_image"@.len() == 12);
    assert("set_member_image"@.len() == 16);
    assert("set_member_desc"@.len() == 15);
}

/// The names of the slots are told apart too, whatever member they name.
proof fn lemma_slots(m: Seq<char>, n: Seq<char>)
    ensures
        "name"@ != "charter"@,
        "name"@ != "image"@,
        "charter"@ != "image"@,
        "member_image:"@ + m != "name"@,
        "member_image:"@ + m != "charter"@,
        "member_image:"@ + m != "image"@,
        "member_desc:"@ + m != "name"@,
        "member_desc:"@ + m != "charter"@,
        "member_desc:"@ + m != "image"@,
        "member_image:"@ + m != "member_desc:"@ + n,
        "member_image:"@ + m == "member_image:"@ + n ==> m == n,
        "member_desc:"@ + m == "member_desc:"@ + n ==> m == n,
{
    reveal_strlit("name");
    reveal_strlit("charter");
    reveal_strlit("image");
    reveal_strlit("member_image:");
    reveal_strlit("member_desc:");
    let a = "member_image:"@ + m;
    let b = "member_desc:"@ + n;
    assert("name"@.len() == 4);
    assert("charter"@.len() == 7);
    assert("image"@.len() == 5);
    assert("member_image:"@.len() == 13);
    assert("member_desc:"@.len() == 12);
    assert(a[7] == 'i');
    assert(b[7] == 'd');
    assert(a.skip(13) =~= m);
    assert(("member_image:"@ + n).skip(13) =~= n);
    assert(("member_desc:"@ + m).skip(12) =~= m);
    assert(b.skip(12) =~= n);
}

/// Two entries share a slot exactly where they settle the same thing.
proof fn lemma_slot_shared(a: PayloadV, b: PayloadV)
    ensures
        (fold::slot_of(Surface::Organization, a) is Some && fold::slot_of(Surface::Organization, a)
            == fold::slot_of(Surface::Organization, b)) <==> settle_the_same(a, b),
{
    lemma_ops();
    let m = match a.text("member"@) {
        Some(m) => m,
        None => Seq::empty(),
    };
    let n = match b.text("member"@) {
        Some(n) => n,
        None => Seq::empty(),
    };
    lemma_slots(m, n);
    lemma_slots(n, m);
}

/// The entries outside a slot are those that settle something else.
proof fn lemma_outside(entries: Seq<EntryV>, p: PayloadV)
    requires
        fold::slot_of(Surface::Organization, p) is Some,
    ensures
        fold::outside_slot(
            Surface::Organization,
            entries,
            fold::slot_of(Surface::Organization, p)->0,
        ) == entries.filter(|e: EntryV| !settle_the_same(p, e.payload)),
    decreases entries.len(),
{
    reveal(Seq::filter);
    if entries.len() > 0 {
        lemma_outside(entries.drop_last(), p);
        lemma_slot_shared(p, entries.last().payload);
    }
}

/// What stands of the earlier entries of a surface once a payload is applied:
/// in the organization all but those that settle the same thing, and
/// everywhere else all of them.
pub open spec fn standing(surface: Surface, entries: Seq<EntryV>, p: PayloadV) -> Seq<EntryV> {
    if surface == Surface::Organization {
        entries.filter(|e: EntryV| !settle_the_same(p, e.payload))
    } else {
        entries
    }
}

/// An applied entry comes last, and it takes the place of those earlier
/// entries, and only those, that settle the same thing.
pub proof fn an_entry_is_dropped_only_by_one_of_its_kind(
    surface: Surface,
    entries: Seq<EntryV>,
    entry: EntryV,
)
    ensures
        fold::entries_after(surface, entries, entry) == standing(
            surface,
            entries,
            entry.payload,
        ).push(entry),
{
    if surface == Surface::Organization {
        match fold::slot_of(surface, entry.payload) {
            Some(slot) => {
                lemma_outside(entries, entry.payload);
            },
            None => {
                assert forall|k: int| 0 <= k < entries.len() implies !settle_the_same(
                    entry.payload,
                    (#[trigger] entries[k]).payload,
                ) by {
                    lemma_slot_shared(entry.payload, entries[k].payload);
                }
                list_laws::lemma_all_pass(
                    entries,
                    |e: EntryV| !settle_the_same(entry.payload, e.payload),
                );
            },
        }
    }
}

/// A new charter leaves the name standing, and a new name the charter; a
/// member's image leaves every other member's, and its own description.
pub proof fn settling_one_thing_keeps_the_others(entries: Seq<EntryV>, entry: EntryV, k: int)
    requires
        0 <= k < entries.len(),
        entries[k].payload.text("op"@) != entry.payload.text("op"@) || entries[k].payload.text(
            "member"@,
        ) != entry.payload.text("member"@),
        !(entries[k].payload.text("op"@) == Some("set_name"@) && entry.payload.text("op"@) == Some(
            "set_name"@,
        )),
        !(entries[k].payload.text("op"@) == Some("set_charter"@) && entry.payload.text("op"@)
            == Some("set_charter"@)),
        !((entries[k].payload.text("op"@) == Some("set_image"@) || entries[k].payload.text("op"@)
            == Some("remove_image"@)) && (entry.payload.text("op"@) == Some("set_image"@)
            || entry.payload.text("op"@) == Some("remove_image"@))),
    ensures
        fold::entries_after(Surface::Organization, entries, entry).contains(entries[k]),
{
    an_entry_is_dropped_only_by_one_of_its_kind(Surface::Organization, entries, entry);
    lemma_ops();
    let pass = |e: EntryV| !settle_the_same(entry.payload, e.payload);
    assert(pass(entries[k]));
    entries.lemma_filter_contains(pass, k);
    let left = entries.filter(pass);
    let j = choose|j: int| 0 <= j < left.len() && left[j] == entries[k];
    assert(left.push(entry)[j] == entries[k]);
}

/// The surfaces in the order in which a summary lists them.
pub open spec fn surface_at(i: int) -> Surface {
    if i == 0 {
        Surface::Organization
    } else if i == 1 {
        Surface::Chat
    } else if i == 2 {
        Surface::Memory
    } else if i == 3 {
        Surface::Quests
    } else if i == 4 {
        Surface::Vault
    } else {
        Surface::Wallet
    }
}

/// Has each surface one group, in its place?
pub open spec fn one_group_each(groups: Seq<GroupV>) -> bool {
    &&& groups.len() == 6
    &&& forall|i: int| 0 <= i < 6 ==> (#[trigger] groups[i]).surface == surface_at(i)
}

/// Do the anchors ascend by member?
pub open spec fn anchors_ascend(anchors: Seq<AnchorV>) -> bool {
    forall|i: int, j: int|
        0 <= i < j < anchors.len() ==> text::before(
            (#[trigger] anchors[i]).member,
            (#[trigger] anchors[j]).member,
        )
}

/// Do the declarations ascend by member?
pub open spec fn declarations_ascend(declared: Seq<DeclarationV>) -> bool {
    forall|i: int, j: int|
        0 <= i < j < declared.len() ==> text::before(
            (#[trigger] declared[i]).member,
            (#[trigger] declared[j]).member,
        )
}

/// Is the summary laid out as every summary is?
pub open spec fn laid_out(s: SummaryV) -> bool {
    &&& one_group_each(s.applied)
    &&& anchors_ascend(s.anchors)
    &&& declarations_ascend(s.member_relays)
}

/// The group of a surface stands in its place.
proof fn lemma_group_found(groups: Seq<GroupV>, g: int)
    requires
        one_group_each(groups),
        0 <= g < 6,
    ensures
        fold::group_at(groups, surface_at(g)) == g,
{
    reveal_with_fuel(fold::group_at, 7);
    assert(groups[0].surface == surface_at(0));
    assert(groups[1].surface == surface_at(1));
    assert(groups[2].surface == surface_at(2));
    assert(groups[3].surface == surface_at(3));
    assert(groups[4].surface == surface_at(4));
    assert(groups[5].surface == surface_at(5));
    assert(groups.skip(1).skip(1) =~= groups.skip(2));
    assert(groups.skip(2).skip(1) =~= groups.skip(3));
    assert(groups.skip(3).skip(1) =~= groups.skip(4));
    assert(groups.skip(4).skip(1) =~= groups.skip(5));
}

/// Re-anchoring a seat leaves it with the new key, and every other seat with
/// its own.
pub proof fn an_anchor_moves_one_seat(anchors: Seq<AnchorV>, member: Seq<char>, pk: Seq<char>)
    requires
        anchors_ascend(anchors),
    ensures
        anchors_ascend(fold::anchors_after(anchors, member, pk)),
        forall|a: AnchorV| #[trigger]
            fold::anchors_after(anchors, member, pk).contains(a) <==> (a == AnchorV {
                member,
                nostr_pk: pk,
            } || (anchors.contains(a) && a.member != member)),
    decreases anchors.len(),
{
    let new = AnchorV { member, nostr_pk: pk };
    let out = fold::anchors_after(anchors, member, pk);
    if anchors.len() == 0 {
        assert(out[0] == new);
    } else {
        let front = anchors.drop_last();
        let top = anchors.last();
        assert(anchors =~= front.push(top));
        text::lemma_before_irreflexive(member);
        text::lemma_before_total(top.member, member);
        assert forall|i: int| 0 <= i < front.len() implies text::before(
            (#[trigger] front[i]).member,
            top.member,
        ) by {
            assert(front[i] == anchors[i]);
            assert(top == anchors[anchors.len() - 1]);
        }
        if top.member == member {
            assert forall|a: AnchorV| #[trigger] out.contains(a) <==> (a == new || (
            anchors.contains(a) && a.member != member)) by {
                if out.contains(a) {
                    let i = choose|i: int| 0 <= i < out.len() && out[i] == a;
                    if i < front.len() {
                        assert(anchors[i] == a);
                        assert(text::before(front[i].member, top.member));
                    }
                }
                if anchors.contains(a) && a.member != member {
                    let i = choose|i: int| 0 <= i < anchors.len() && anchors[i] == a;
                    assert(out[i] == a);
                }
                assert(out[front.len() as int] == new);
            }
        } else if text::before(top.member, member) {
            assert forall|i: int, j: int| 0 <= i < j < out.len() implies text::before(
                (#[trigger] out[i]).member,
                (#[trigger] out[j]).member,
            ) by {
                if j == anchors.len() && i < front.len() {
                    assert(text::before(front[i].member, top.member));
                    text::lemma_before_transitive(front[i].member, top.member, member);
                }
            }
            assert forall|a: AnchorV| #[trigger] out.contains(a) <==> (a == new || (
            anchors.contains(a) && a.member != member)) by {
                if out.contains(a) {
                    let i = choose|i: int| 0 <= i < out.len() && out[i] == a;
                    if i < anchors.len() {
                        assert(anchors[i] == a);
                        if i < front.len() {
                            assert(text::before(front[i].member, top.member));
                            text::lemma_before_transitive(front[i].member, top.member, member);
                        }
                    }
                }
                if anchors.contains(a) && a.member != member {
                    let i = choose|i: int| 0 <= i < anchors.len() && anchors[i] == a;
                    assert(out[i] == a);
                }
                assert(out[anchors.len() as int] == new);
            }
        } else {
            assert(anchors_ascend(front));
            an_anchor_moves_one_seat(front, member, pk);
            let rest = fold::anchors_after(front, member, pk);
            assert(out =~= rest.push(top));
            assert forall|i: int, j: int| 0 <= i < j < out.len() implies text::before(
                (#[trigger] out[i]).member,
                (#[trigger] out[j]).member,
            ) by {
                if j == rest.len() {
                    assert(rest.contains(rest[i]));
                    if rest[i] != new {
                        let k = choose|k: int| 0 <= k < front.len() && front[k] == rest[i];
                        assert(text::before(front[k].member, top.member));
                    }
                }
            }
            assert forall|a: AnchorV| #[trigger] out.contains(a) <==> (a == new || (
            anchors.contains(a) && a.member != member)) by {
                if out.contains(a) {
                    let i = choose|i: int| 0 <= i < out.len() && out[i] == a;
                    if i < rest.len() {
                        assert(rest.contains(a));
                        if a != new {
                            let k = choose|k: int| 0 <= k < front.len() && front[k] == a;
                            assert(anchors[k] == a);
                        }
                    } else {
                        assert(anchors[anchors.len() - 1] == a);
                    }
                }
                if anchors.contains(a) && a.member != member {
                    let i = choose|i: int| 0 <= i < anchors.len() && anchors[i] == a;
                    if i < front.len() {
                        assert(front[i] == a);
                        assert(front.contains(a));
                        assert(rest.contains(a));
                        let k = choose|k: int| 0 <= k < rest.len() && rest[k] == a;
                        assert(out[k] == a);
                    } else {
                        assert(out[rest.len() as int] == a);
                    }
                }
                if a == new {
                    assert(rest.contains(new));
                    let k = choose|k: int| 0 <= k < rest.len() && rest[k] == new;
                    assert(out[k] == new);
                }
            }
        }
    }
}

/// A seat that declares its relays has those on record, and every other seat
/// keeps its own.
pub proof fn a_declaration_moves_one_seat(declared: Seq<DeclarationV>, member: Seq<char>, relays: Seq<Seq<char>>)
    requires
        declarations_ascend(declared),
    ensures
        declarations_ascend(fold::declarations_after(declared, member, relays)),
        forall|a: DeclarationV| #[trigger]
            fold::declarations_after(declared, member, relays).contains(a) <==> (a == DeclarationV {
                member,
                relays,
            } || (declared.contains(a) && a.member != member)),
    decreases declared.len(),
{
    let new = DeclarationV { member, relays };
    let out = fold::declarations_after(declared, member, relays);
    if declared.len() == 0 {
        assert(out[0] == new);
    } else {
        let front = declared.drop_last();
        let top = declared.last();
        assert(declared =~= front.push(top));
        text::lemma_before_irreflexive(member);
        text::lemma_before_total(top.member, member);
        assert forall|i: int| 0 <= i < front.len() implies text::before(
            (#[trigger] front[i]).member,
            top.member,
        ) by {
            assert(front[i] == declared[i]);
            assert(top == declared[declared.len() - 1]);
        }
        if top.member == member {
            assert forall|a: DeclarationV| #[trigger] out.contains(a) <==> (a == new || (
            declared.contains(a) && a.member != member)) by {
                if out.contains(a) {
                    let i = choose|i: int| 0 <= i < out.len() && out[i] == a;
                    if i < front.len() {
                        assert(declared[i] == a);
                        assert(text::before(front[i].member, top.member));
                    }
                }
                if declared.contains(a) && a.member != member {
                    let i = choose|i: int| 0 <= i < declared.len() && declared[i] == a;
                    assert(out[i] == a);
                }
                assert(out[front.len() as int] == new);
            }
        } else if text::before(top.member, member) {
            assert forall|i: int, j: int| 0 <= i < j < out.len() implies text::before(
                (#[trigger] out[i]).member,
                (#[trigger] out[j]).member,
            ) by {
                if j == declared.len() && i < front.len() {
                    assert(text::before(front[i].member, top.member));
                    text::lemma_before_transitive(front[i].member, top.member, member);
                }
            }
            assert forall|a: DeclarationV| #[trigger] out.contains(a) <==> (a == new || (
            declared.contains(a) && a.member != member)) by {
                if out.contains(a) {
                    let i = choose|i: int| 0 <= i < out.len() && out[i] == a;
                    if i < declared.len() {
                        assert(declared[i] == a);
                        if i < front.len() {
                            assert(text::before(front[i].member, top.member));
                            text::lemma_before_transitive(front[i].member, top.member, member);
                        }
                    }
                }
                if declared.contains(a) && a.member != member {
                    let i = choose|i: int| 0 <= i < declared.len() && declared[i] == a;
                    assert(out[i] == a);
                }
                assert(out[declared.len() as int] == new);
            }
        } else {
            assert(declarations_ascend(front));
            a_declaration_moves_one_seat(front, member, relays);
            let rest = fold::declarations_after(front, member, relays);
            assert(out =~= rest.push(top));
            assert forall|i: int, j: int| 0 <= i < j < out.len() implies text::before(
                (#[trigger] out[i]).member,
                (#[trigger] out[j]).member,
            ) by {
                if j == rest.len() {
                    assert(rest.contains(rest[i]));
                    if rest[i] != new {
                        let k = choose|k: int| 0 <= k < front.len() && front[k] == rest[i];
                        assert(text::before(front[k].member, top.member));
                    }
                }
            }
            assert forall|a: DeclarationV| #[trigger] out.contains(a) <==> (a == new || (
            declared.contains(a) && a.member != member)) by {
                if out.contains(a) {
                    let i = choose|i: int| 0 <= i < out.len() && out[i] == a;
                    if i < rest.len() {
                        assert(rest.contains(a));
                        if a != new {
                            let k = choose|k: int| 0 <= k < front.len() && front[k] == a;
                            assert(declared[k] == a);
                        }
                    } else {
                        assert(declared[declared.len() - 1] == a);
                    }
                }
                if declared.contains(a) && a.member != member {
                    let i = choose|i: int| 0 <= i < declared.len() && declared[i] == a;
                    if i < front.len() {
                        assert(front[i] == a);
                        assert(front.contains(a));
                        assert(rest.contains(a));
                        let k = choose|k: int| 0 <= k < rest.len() && rest[k] == a;
                        assert(out[k] == a);
                    } else {
                        assert(out[rest.len() as int] == a);
                    }
                }
                if a == new {
                    assert(rest.contains(new));
                    let k = choose|k: int| 0 <= k < rest.len() && rest[k] == new;
                    assert(out[k] == new);
                }
            }
        }
    }
}

/// The summary of a chain that only founds: the founding as it was sealed, and
/// nothing applied, consumed, anchored or declared.
pub proof fn a_founding_is_summarised_as_it_was_sealed(block: BlockV)
    ensures
        fold::summary_of(seq![block], 0) is Ok <==> block.change is Genesis,
        block.change matches ChangeV::Genesis {
            name,
            republic_id,
            rule_m,
            rule_n,
            identities,
            agenda,
            features,
            relays,
        } ==> {
            let s = fold::summary_of(seq![block], 0)->Ok_0;
            &&& s.founding_name == name
            &&& s.republic_id == republic_id
            &&& s.rule_m == rule_m
            &&& s.rule_n == rule_n
            &&& s.founding_identities == identities
            &&& s.roster == identities
            &&& s.agenda == agenda
            &&& s.founding_features == features
            &&& s.relays == relays
            &&& s.upto == 0
            &&& laid_out(s)
            &&& forall|i: int| 0 <= i < 6 ==> (#[trigger] s.applied[i]).entries.len() == 0
            &&& s.consumed_ids.len() == 0
            &&& s.anchors.len() == 0
            &&& s.member_relays.len() == 0
        },
{
    let blocks = seq![block];
    assert(blocks.skip(1) =~= Seq::empty());
    if block.change is Genesis {
        let s = fold::summary_of(blocks, 0)->Ok_0;
        assert(s.applied =~= fold::empty_groups());
        assert(s.applied.len() == 6);
        assert forall|i: int| 0 <= i < 6 implies (#[trigger] s.applied[i]).surface == surface_at(
            i,
        ) by {}
    }
}

/// Does `t` keep of the founding what `s` has?
pub open spec fn same_founding(s: SummaryV, t: SummaryV) -> bool {
    &&& t.founding_name == s.founding_name
    &&& t.republic_id == s.republic_id
    &&& t.rule_m == s.rule_m
    &&& t.rule_n == s.rule_n
    &&& t.founding_identities == s.founding_identities
    &&& t.roster == s.roster
    &&& t.agenda == s.agenda
    &&& t.founding_features == s.founding_features
    &&& t.relays == s.relays
}

/// Is `t` what `s` becomes by that change? An applied entry joins its own
/// surface and its id is consumed; a membership change re-anchors its member
/// where it names a key, and moves the member's relays where it names some. A
/// founding or a checkpoint adds nothing.
pub open spec fn grown_by(s: SummaryV, t: SummaryV, change: ChangeV) -> bool {
    &&& same_founding(s, t)
    &&& match change {
        ChangeV::Applied { proposal_id, surface, payload } => {
            &&& forall|g: int|
                0 <= g < 6 ==> (#[trigger] t.applied[g]).entries == (if surface_at(g) == surface {
                    standing(surface, s.applied[g].entries, payload).push(
                        EntryV { id: proposal_id, payload },
                    )
                } else {
                    s.applied[g].entries
                })
            &&& t.anchors == s.anchors
            &&& t.member_relays == s.member_relays
        },
        ChangeV::Membership { op, member, nostr_pk, relays, .. } => {
            &&& op == MembershipOp::Restored
            &&& t.applied == s.applied
            &&& (nostr_pk is None || nostr_pk->0.len() == 0 ==> t.anchors == s.anchors)
            &&& (nostr_pk is Some && nostr_pk->0.len() > 0 ==> forall|a: AnchorV| #[trigger]
                t.anchors.contains(a) <==> (a == AnchorV { member, nostr_pk: nostr_pk->0 } || (
                s.anchors.contains(a) && a.member != member)))
            &&& (relays.len() == 0 ==> t.member_relays == s.member_relays)
            &&& (relays.len() > 0 ==> forall|d: DeclarationV| #[trigger]
                t.member_relays.contains(d) <==> (d == DeclarationV { member, relays } || (
                s.member_relays.contains(d) && d.member != member)))
        },
        _ => t.applied == s.applied && t.anchors == s.anchors && t.member_relays == s.member_relays,
    }
}

/// The state after one block is what the block's change makes of it, and is
/// laid out as before.
proof fn lemma_folded_grows(s: SummaryV, block: BlockV)
    requires
        laid_out(s),
        fold::folded(s, block) is Ok,
    ensures
        grown_by(s, fold::folded(s, block)->Ok_0, block.change),
        laid_out(fold::folded(s, block)->Ok_0),
        fold::folded(s, block)->Ok_0.consumed_ids == (match block.change {
            ChangeV::Applied { proposal_id, .. } => s.consumed_ids.push(proposal_id),
            _ => s.consumed_ids,
        }),
{
    let t = fold::folded(s, block)->Ok_0;
    match block.change {
        ChangeV::Applied { proposal_id, surface, payload } => {
            let g = if surface == Surface::Organization {
                0
            } else if surface == Surface::Chat {
                1
            } else if surface == Surface::Memory {
                2
            } else if surface == Surface::Quests {
                3
            } else if surface == Surface::Vault {
                4
            } else {
                5int
            };
            assert(surface_at(g) == surface);
            lemma_group_found(s.applied, g);
            an_entry_is_dropped_only_by_one_of_its_kind(
                surface,
                s.applied[g].entries,
                EntryV { id: proposal_id, payload },
            );
            assert forall|i: int| 0 <= i < 6 implies (#[trigger] t.applied[i]).surface
                == surface_at(i) by {
                assert(s.applied[i].surface == surface_at(i));
            }
        },
        ChangeV::Membership { op, member, nostr_pk, relays, .. } => {
            if nostr_pk is Some && nostr_pk->0.len() > 0 {
                an_anchor_moves_one_seat(s.anchors, member, nostr_pk->0);
            }
            if relays.len() > 0 {
                a_declaration_moves_one_seat(s.member_relays, member, relays);
            }
        },
        _ => {},
    }
}

/// Does each block stand at its height?
pub open spec fn heights_count(blocks: Seq<BlockV>) -> bool {
    forall|i: int| 0 <= i < blocks.len() ==> (#[trigger] blocks[i]).height == i
}

/// The fold of a chain without its last block, and then of that block.
proof fn lemma_fold_last(blocks: Seq<BlockV>, block: BlockV)
    requires
        blocks.len() > 0,
        heights_count(blocks.push(block)),
        blocks.len() <= u64::MAX,
        blocks[0].change is Genesis,
    ensures
        ({
            let base = fold::founded_state(blocks[0].change)->0;
            let n = blocks.len();
            fold::folded_through(base, blocks.push(block).skip(1), n as u64) == (
            match fold::folded_through(base, blocks.skip(1), (n - 1) as u64) {
                Err(e) => Err(e),
                Ok(s) => fold::folded(s, block),
            })
        }),
{
    let all = blocks.push(block);
    let n = blocks.len();
    let base = fold::founded_state(blocks[0].change)->0;
    let rest = blocks.skip(1);
    assert(all[n as int].height == n);
    assert(all.skip(1) =~= rest.push(block));
    assert forall|i: int| 0 <= i < rest.len() implies (#[trigger] rest[i]).height <= (n
        - 1) as u64 by {
        assert(all[i + 1] == rest[i]);
    }
    chain_laws::lemma_folded_push(base, rest, block, n as u64);
    chain_laws::lemma_folded_upto(base, rest, (n - 1) as u64, n as u64);
}

/// A chain that folds has a laid out state.
proof fn lemma_fold_laid_out(blocks: Seq<BlockV>)
    requires
        0 < blocks.len() <= u64::MAX,
        heights_count(blocks),
        blocks[0].change is Genesis,
        fold::folded_through(
            fold::founded_state(blocks[0].change)->0,
            blocks.skip(1),
            (blocks.len() - 1) as u64,
        ) is Ok,
    ensures
        laid_out(
            fold::folded_through(
                fold::founded_state(blocks[0].change)->0,
                blocks.skip(1),
                (blocks.len() - 1) as u64,
            )->Ok_0,
        ),
    decreases blocks.len(),
{
    let base = fold::founded_state(blocks[0].change)->0;
    if blocks.len() == 1 {
        assert(blocks =~= seq![blocks[0]]);
        a_founding_is_summarised_as_it_was_sealed(blocks[0]);
        assert(blocks.skip(1) =~= Seq::empty());
    } else {
        let front = blocks.drop_last();
        assert(blocks =~= front.push(blocks.last()));
        assert forall|i: int| 0 <= i < front.len() implies (#[trigger] front[i]).height == i by {
            assert(blocks[i] == front[i]);
        }
        assert(front[0] == blocks[0]);
        lemma_fold_last(front, blocks.last());
        lemma_fold_laid_out(front);
        let s = fold::folded_through(base, front.skip(1), (front.len() - 1) as u64)->Ok_0;
        lemma_folded_grows(s, blocks.last());
    }
}

/// A summary grows with its chain by what one more block says, and by nothing
/// else.
pub proof fn a_summary_grows_by_what_a_block_says(blocks: Seq<BlockV>, block: BlockV)
    requires
        0 < blocks.len() <= u64::MAX,
        heights_count(blocks.push(block)),
        fold::summary_of(blocks.push(block), blocks.len() as u64) is Ok,
    ensures
        ({
            let s = fold::summary_of(blocks, (blocks.len() - 1) as u64);
            let t = fold::summary_of(blocks.push(block), blocks.len() as u64)->Ok_0;
            &&& s is Ok
            &&& laid_out(s->Ok_0)
            &&& laid_out(t)
            &&& grown_by(s->Ok_0, t, block.change)
            &&& t.upto == blocks.len()
            &&& fold::ids_ascend(t.consumed_ids)
            &&& t.consumed_ids.to_multiset() == (match block.change {
                ChangeV::Applied { proposal_id, .. } => s->Ok_0.consumed_ids.to_multiset().insert(
                    proposal_id,
                ),
                _ => s->Ok_0.consumed_ids.to_multiset(),
            })
        }),
{
    broadcast use vstd::seq_lib::group_to_multiset_ensures;
    let all = blocks.push(block);
    assert(all[0] == blocks[0]);
    lemma_fold_last(blocks, block);
    assert forall|i: int| 0 <= i < blocks.len() implies (#[trigger] blocks[i]).height == i by {
        assert(all[i] == blocks[i]);
    }
    lemma_fold_laid_out(blocks);
    let base = fold::founded_state(blocks[0].change)->0;
    let running = fold::folded_through(base, blocks.skip(1), (blocks.len() - 1) as u64)->Ok_0;
    lemma_folded_grows(running, block);
    let next = fold::folded(running, block)->Ok_0;
    fold::sorting_orders_and_keeps(running.consumed_ids);
    fold::sorting_orders_and_keeps(next.consumed_ids);
}

/// A summary at a height stands for the blocks up to that height, and is the
/// same whatever stands above it.
pub proof fn a_summary_ignores_what_stands_above(blocks: Seq<BlockV>, upto: u64)
    requires
        heights_count(blocks),
        upto < blocks.len(),
    ensures
        fold::summary_of(blocks, upto) == fold::summary_of(blocks.take(upto + 1), upto),
{
    let low = blocks.take(upto + 1);
    assert(low[0] == blocks[0]);
    match fold::founded_state(blocks[0].change) {
        Some(base) => {
            lemma_above(base, blocks.skip(1), upto, upto as int, 1);
            assert(blocks.skip(1).take(upto as int) =~= low.skip(1));
        },
        None => {},
    }
}

/// The fold ends with the first block above the height.
proof fn lemma_above(state: SummaryV, blocks: Seq<BlockV>, upto: u64, n: int, first: int)
    requires
        0 <= n <= blocks.len(),
        n + first == upto + 1,
        forall|i: int| 0 <= i < blocks.len() ==> (#[trigger] blocks[i]).height == i + first,
    ensures
        fold::folded_through(state, blocks, upto) == fold::folded_through(
            state,
            blocks.take(n),
            upto,
        ),
    decreases n,
{
    let low = blocks.take(n);
    if n == 0 {
        if blocks.len() > 0 {
            assert(blocks[0].height == first);
        }
    } else {
        assert(low[0] == blocks[0]);
        assert(low.skip(1) =~= blocks.skip(1).take(n - 1));
        match fold::folded(state, blocks[0]) {
            Ok(next) => {
                assert forall|i: int| 0 <= i < blocks.skip(1).len() implies (
                #[trigger] blocks.skip(1)[i]).height == i + first + 1 by {
                    assert(blocks.skip(1)[i] == blocks[i + 1]);
                }
                lemma_above(next, blocks.skip(1), upto, n - 1, first + 1);
            },
            Err(e) => {},
        }
    }
}

/// An applied entry stands in the summary until a later one of its surface
/// settles the same thing.
pub proof fn what_nothing_replaced_still_stands(blocks: Seq<BlockV>, k: int, g: int)
    requires
        0 < k < blocks.len() <= u64::MAX,
        0 <= g < 6,
        heights_count(blocks),
        fold::summary_of(blocks, (blocks.len() - 1) as u64) is Ok,
        blocks[k].change is Applied,
        blocks[k].change->Applied_surface == surface_at(g),
        forall|j: int|
            k < j < blocks.len() && (#[trigger] blocks[j]).change is Applied
                && blocks[j].change->Applied_surface == surface_at(g) ==> surface_at(g)
                != Surface::Organization || !settle_the_same(
                blocks[j].change->Applied_payload,
                blocks[k].change->Applied_payload,
            ),
    ensures
        fold::summary_of(
            blocks,
            (blocks.len() - 1) as u64,
        )->Ok_0.applied[g].entries.contains(
            EntryV {
                id: blocks[k].change->Applied_proposal_id,
                payload: blocks[k].change->Applied_payload,
            },
        ),
    decreases blocks.len(),
{
    let front = blocks.drop_last();
    let top = blocks.last();
    let entry = EntryV {
        id: blocks[k].change->Applied_proposal_id,
        payload: blocks[k].change->Applied_payload,
    };
    assert(blocks =~= front.push(top));
    a_summary_grows_by_what_a_block_says(front, top);
    let s = fold::summary_of(front, (front.len() - 1) as u64)->Ok_0;
    let t = fold::summary_of(blocks, (blocks.len() - 1) as u64)->Ok_0;
    assert(t.applied[g].entries == t.applied[g].entries);
    if k == blocks.len() - 1 {
        assert(t.applied[g].entries.last() == entry);
    } else {
        assert forall|i: int| 0 <= i < front.len() implies (#[trigger] front[i]).height == i by {
            assert(blocks[i] == front[i]);
        }
        assert(front[k] == blocks[k]);
        assert forall|j: int|
            k < j < front.len() && (#[trigger] front[j]).change is Applied
                && front[j].change->Applied_surface == surface_at(g) implies surface_at(g)
            != Surface::Organization || !settle_the_same(
            front[j].change->Applied_payload,
            front[k].change->Applied_payload,
        ) by {
            assert(front[j] == blocks[j]);
        }
        what_nothing_replaced_still_stands(front, k, g);
        let before = s.applied[g].entries;
        let i = choose|i: int| 0 <= i < before.len() && before[i] == entry;
        match top.change {
            ChangeV::Applied { proposal_id, surface, payload } => {
                if surface == surface_at(g) {
                    assert(blocks[blocks.len() - 1] == top);
                    let pass = |e: EntryV| !settle_the_same(payload, e.payload);
                    if surface == Surface::Organization {
                        assert(pass(before[i]));
                        before.lemma_filter_contains(pass, i);
                    }
                    let left = standing(surface, before, payload);
                    assert(left.contains(entry));
                    let j = choose|j: int| 0 <= j < left.len() && left[j] == entry;
                    assert(t.applied[g].entries[j] == entry);
                }
            },
            _ => {},
        }
    }
}

} // verus!
