//! The lists that a state and a chat keep for each member, peer, channel or
//! message: whatever is put in or taken out, none is listed twice.

use crate::chat;
use crate::chat_model::{ChannelRef, CursorV, DownloadV, PrunedV, ShareV};
use crate::compaction;
use crate::fold;
use crate::model::{AnchorV, DeclarationV, EntryV, GroupV, Surface};
use crate::peers;
use crate::projection;
use crate::recovery;
use crate::relays;
use crate::state;
use crate::state::{DivergenceV, PeerHeightV, RecoveryV, SplitV};
use crate::text;
use vstd::prelude::*;

verus! {

/// The names with one more, at the end, unless it is there.
pub open spec fn added<K>(names: Seq<K>, name: K) -> Seq<K> {
    if names.contains(name) {
        names
    } else {
        names.push(name)
    }
}

/// The names without one.
pub open spec fn dropped<K>(names: Seq<K>, name: K) -> Seq<K>
    decreases names.len(),
{
    if names.len() == 0 {
        names
    } else if names.last() == name {
        dropped(names.drop_last(), name)
    } else {
        dropped(names.drop_last(), name).push(names.last())
    }
}

/// One more keeps each name once.
proof fn lemma_added_once<K>(names: Seq<K>, name: K)
    requires
        names.no_duplicates(),
    ensures
        added(names, name).no_duplicates(),
{
}

/// One less keeps each name once, and is gone.
proof fn lemma_dropped_once<K>(names: Seq<K>, name: K)
    requires
        names.no_duplicates(),
    ensures
        dropped(names, name).no_duplicates(),
        !dropped(names, name).contains(name),
        forall|k: K| dropped(names, name).contains(k) ==> #[trigger] names.contains(k),
    decreases names.len(),
{
    if names.len() > 0 {
        let front = names.drop_last();
        let last = names.last();
        let inner = dropped(front, name);
        let out = dropped(names, name);
        lemma_dropped_once(front, name);
        assert(!front.contains(last)) by {
            if front.contains(last) {
                let i = choose|i: int| 0 <= i < front.len() && front[i] == last;
                assert(names[i] == names[names.len() - 1]);
            }
        }
        assert(!inner.contains(last)) by {
            if inner.contains(last) {
                assert(front.contains(last));
            }
        }
        assert forall|k: K| out.contains(k) implies #[trigger] names.contains(k) by {
            let i = choose|i: int| 0 <= i < out.len() && out[i] == k;
            if i < inner.len() {
                assert(inner[i] == k);
                assert(inner.contains(k));
                assert(front.contains(k));
                let j = choose|j: int| 0 <= j < front.len() && front[j] == k;
                assert(names[j] == k);
            } else {
                assert(names[names.len() - 1] == k);
            }
        }
        assert(!out.contains(name)) by {
            if out.contains(name) {
                let i = choose|i: int| 0 <= i < out.len() && out[i] == name;
                if i < inner.len() {
                    assert(inner[i] == name);
                }
            }
        }
        if last != name {
            assert forall|i: int, j: int| 0 <= i < j < out.len() implies out[i] != out[j] by {
                assert(out[i] == inner[i]);
                if j < inner.len() {
                    assert(out[j] == inner[j]);
                } else {
                    assert(inner.contains(inner[i]));
                }
            }
        }
    }
}

/// A name in front of a list whose rest takes one more.
proof fn lemma_added_behind<K>(first: K, rest: Seq<K>, name: K)
    requires
        first != name,
    ensures
        seq![first] + added(rest, name) == added(seq![first] + rest, name),
{
    let all = seq![first] + rest;
    if rest.contains(name) {
        let i = choose|i: int| 0 <= i < rest.len() && rest[i] == name;
        assert(all[i + 1] == name);
    } else if all.contains(name) {
        let i = choose|i: int| 0 <= i < all.len() && all[i] == name;
        assert(rest[i - 1] == name);
    }
    assert(seq![first] + added(rest, name) =~= added(all, name));
}

/// The members of whom a height is on record.
pub open spec fn measured(list: Seq<PeerHeightV>) -> Seq<Seq<char>> {
    Seq::new(list.len(), |i: int| list[i].member)
}

proof fn lemma_measured(list: Seq<PeerHeightV>, member: Seq<char>, height: u64)
    ensures
        measured(peers::heights_with(list, member, height)) == added(measured(list), member),
    decreases list.len(),
{
    let out = peers::heights_with(list, member, height);
    if list.len() == 0 {
        assert(measured(out) =~= added(measured(list), member));
    } else if list[0].member == member {
        assert(measured(list)[0] == member);
        assert(measured(out) =~= measured(list));
    } else {
        let rest = list.skip(1);
        lemma_measured(rest, member, height);
        lemma_added_behind(list[0].member, measured(rest), member);
        assert(measured(list) =~= seq![list[0].member] + measured(rest));
        assert(measured(out) =~= seq![list[0].member] + measured(
            peers::heights_with(rest, member, height),
        ));
    }
}

/// A member has one height on record, however often one is heard.
pub proof fn a_height_is_on_record_once(list: Seq<PeerHeightV>, member: Seq<char>, height: u64)
    requires
        measured(list).no_duplicates(),
    ensures
        measured(peers::heights_with(list, member, height)).no_duplicates(),
{
    lemma_measured(list, member, height);
    lemma_added_once(measured(list), member);
}

/// The channels that have a cursor.
pub open spec fn marked(list: Seq<CursorV>) -> Seq<ChannelRef> {
    Seq::new(list.len(), |i: int| list[i].channel)
}

proof fn lemma_marked(list: Seq<CursorV>, channel: ChannelRef, id: Seq<char>)
    ensures
        marked(chat::cursors_with(list, channel, id)) == added(marked(list), channel),
    decreases list.len(),
{
    let out = chat::cursors_with(list, channel, id);
    if list.len() == 0 {
        assert(marked(out) =~= added(marked(list), channel));
    } else if list[0].channel == channel {
        assert(marked(list)[0] == channel);
        assert(marked(out) =~= marked(list));
    } else {
        let rest = list.skip(1);
        lemma_marked(rest, channel, id);
        lemma_added_behind(list[0].channel, marked(rest), channel);
        assert(marked(list) =~= seq![list[0].channel] + marked(rest));
        assert(marked(out) =~= seq![list[0].channel] + marked(
            chat::cursors_with(rest, channel, id),
        ));
    }
}

/// A channel has one cursor, however often it is marked.
pub proof fn a_channel_has_one_cursor(list: Seq<CursorV>, channel: ChannelRef, id: Seq<char>)
    requires
        marked(list).no_duplicates(),
    ensures
        marked(chat::cursors_with(list, channel, id)).no_duplicates(),
{
    lemma_marked(list, channel, id);
    lemma_added_once(marked(list), channel);
}

/// The members of whom messages were dropped.
pub open spec fn counted(list: Seq<PrunedV>) -> Seq<Seq<char>> {
    Seq::new(list.len(), |i: int| list[i].member)
}

proof fn lemma_counted(list: Seq<PrunedV>, member: Seq<char>)
    ensures
        counted(compaction::counts_with(list, member)) == added(counted(list), member),
    decreases list.len(),
{
    let out = compaction::counts_with(list, member);
    if list.len() == 0 {
        assert(counted(out) =~= added(counted(list), member));
    } else if list[0].member == member {
        assert(counted(list)[0] == member);
        assert(counted(out) =~= counted(list));
    } else {
        let rest = list.skip(1);
        lemma_counted(rest, member);
        lemma_added_behind(list[0].member, counted(rest), member);
        assert(counted(list) =~= seq![list[0].member] + counted(rest));
        assert(counted(out) =~= seq![list[0].member] + counted(
            compaction::counts_with(rest, member),
        ));
    }
}

/// The dropped messages of a member are counted in one place.
pub proof fn a_member_is_counted_once(list: Seq<PrunedV>, member: Seq<char>)
    requires
        counted(list).no_duplicates(),
    ensures
        counted(compaction::counts_with(list, member)).no_duplicates(),
{
    lemma_counted(list, member);
    lemma_added_once(counted(list), member);
}

/// The peers that are on another branch.
pub open spec fn astray(list: Seq<DivergenceV>) -> Seq<Seq<char>> {
    Seq::new(list.len(), |i: int| list[i].peer)
}

proof fn lemma_astray(list: Seq<DivergenceV>, peer: Seq<char>)
    ensures
        astray(peers::divergences_without(list, peer)) == dropped(astray(list), peer),
    decreases list.len(),
{
    if list.len() > 0 {
        lemma_astray(list.drop_last(), peer);
        assert(astray(list).drop_last() =~= astray(list.drop_last()));
    }
    assert(astray(peers::divergences_without(list, peer)) =~= dropped(astray(list), peer));
}

/// A peer is on record as astray once: a new sighting takes the place of an
/// earlier one, and a peer that is back is on record no more.
pub proof fn a_peer_is_astray_once(list: Seq<DivergenceV>, seen: DivergenceV)
    requires
        astray(list).no_duplicates(),
    ensures
        astray(peers::divergences_without(list, seen.peer)).no_duplicates(),
        !astray(peers::divergences_without(list, seen.peer)).contains(seen.peer),
        astray(peers::divergences_without(list, seen.peer).push(seen)).no_duplicates(),
{
    let rest = peers::divergences_without(list, seen.peer);
    lemma_astray(list, seen.peer);
    lemma_dropped_once(astray(list), seen.peer);
    lemma_added_once(astray(rest), seen.peer);
    assert(astray(rest.push(seen)) =~= astray(rest).push(seen.peer));
}

/// The seats whose return is pending.
pub open spec fn returning(list: Seq<RecoveryV>) -> Seq<Seq<char>> {
    Seq::new(list.len(), |i: int| list[i].member)
}

proof fn lemma_returning(list: Seq<RecoveryV>, member: Seq<char>)
    ensures
        returning(recovery::recoveries_without(list, member)) == dropped(returning(list), member),
    decreases list.len(),
{
    if list.len() > 0 {
        lemma_returning(list.drop_last(), member);
        assert(returning(list).drop_last() =~= returning(list.drop_last()));
    }
    assert(returning(recovery::recoveries_without(list, member)) =~= dropped(
        returning(list),
        member,
    ));
}

/// A seat waits for its re-key once: a new request takes the place of an
/// earlier one, and a request that is taken up waits no more.
pub proof fn a_seat_returns_once(list: Seq<RecoveryV>, request: RecoveryV)
    requires
        returning(list).no_duplicates(),
    ensures
        returning(recovery::recoveries_without(list, request.member)).no_duplicates(),
        !returning(recovery::recoveries_without(list, request.member)).contains(request.member),
        returning(
            recovery::recoveries_without(list, request.member).push(request),
        ).no_duplicates(),
{
    let rest = recovery::recoveries_without(list, request.member);
    lemma_returning(list, request.member);
    lemma_dropped_once(returning(list), request.member);
    lemma_added_once(returning(rest), request.member);
    assert(returning(rest.push(request)) =~= returning(rest).push(request.member));
}

/// The messages whose file has a local path.
pub open spec fn shared(list: Seq<ShareV>) -> Seq<Seq<u8>> {
    Seq::new(list.len(), |i: int| list[i].id)
}

proof fn lemma_shared(list: Seq<ShareV>, id: Seq<u8>)
    ensures
        shared(chat::paths_without(list, id)) == dropped(shared(list), id),
    decreases list.len(),
{
    if list.len() > 0 {
        lemma_shared(list.drop_last(), id);
        assert(shared(list).drop_last() =~= shared(list.drop_last()));
    }
    assert(shared(chat::paths_without(list, id)) =~= dropped(shared(list), id));
}

/// A shared file has one local path.
pub proof fn a_share_has_one_path(list: Seq<ShareV>, share: ShareV)
    requires
        shared(list).no_duplicates(),
    ensures
        shared(chat::paths_without(list, share.id)).no_duplicates(),
        shared(chat::paths_without(list, share.id).push(share)).no_duplicates(),
{
    let rest = chat::paths_without(list, share.id);
    lemma_shared(list, share.id);
    lemma_dropped_once(shared(list), share.id);
    lemma_added_once(shared(rest), share.id);
    assert(shared(rest.push(share)) =~= shared(rest).push(share.id));
}

/// The messages whose file is or was being fetched.
pub open spec fn fetched(list: Seq<DownloadV>) -> Seq<Seq<u8>> {
    Seq::new(list.len(), |i: int| list[i].id)
}

proof fn lemma_fetched(list: Seq<DownloadV>, id: Seq<u8>)
    ensures
        fetched(chat::downloads_without(list, id)) == dropped(fetched(list), id),
    decreases list.len(),
{
    if list.len() > 0 {
        lemma_fetched(list.drop_last(), id);
        assert(fetched(list).drop_last() =~= fetched(list.drop_last()));
    }
    assert(fetched(chat::downloads_without(list, id)) =~= dropped(fetched(list), id));
}

/// A download is listed once: its newest phase.
pub proof fn a_download_is_listed_once(list: Seq<DownloadV>, download: DownloadV)
    requires
        fetched(list).no_duplicates(),
    ensures
        fetched(chat::downloads_without(list, download.id).push(download)).no_duplicates(),
{
    let rest = chat::downloads_without(list, download.id);
    lemma_fetched(list, download.id);
    lemma_dropped_once(fetched(list), download.id);
    lemma_added_once(fetched(rest), download.id);
    assert(fetched(rest.push(download)) =~= fetched(rest).push(download.id));
}

/// A split is noted once.
pub proof fn a_split_is_noted_once(noted: Seq<SplitV>, splits: Seq<SplitV>)
    requires
        noted.no_duplicates(),
    ensures
        relays::splits_noted(noted, splits).no_duplicates(),
    decreases splits.len(),
{
    if splits.len() > 0 {
        let rest = relays::splits_noted(noted, splits.drop_last());
        a_split_is_noted_once(noted, splits.drop_last());
        lemma_added_once(rest, splits.last());
    }
}

/// The surfaces that have a group.
pub open spec fn surfaces(groups: Seq<GroupV>) -> Seq<Surface> {
    Seq::new(groups.len(), |i: int| groups[i].surface)
}

/// The place of a surface's group: the first of that surface, or past the end.
proof fn lemma_group_at(groups: Seq<GroupV>, surface: Surface)
    ensures
        fold::group_at(groups, surface) <= groups.len(),
        fold::group_at(groups, surface) < groups.len() ==> groups[fold::group_at(
            groups,
            surface,
        ) as int].surface == surface,
        fold::group_at(groups, surface) == groups.len() ==> !surfaces(groups).contains(surface),
    decreases groups.len(),
{
    if groups.len() > 0 && groups[0].surface != surface {
        let rest = groups.skip(1);
        lemma_group_at(rest, surface);
        if surfaces(groups).contains(surface) {
            let i = choose|i: int| 0 <= i < groups.len() && surfaces(groups)[i] == surface;
            assert(surfaces(rest)[i - 1] == surface);
        }
    }
}

/// What a surface applied stands in one group.
pub proof fn a_surface_has_one_group(groups: Seq<GroupV>, surface: Surface, entry: EntryV)
    requires
        surfaces(groups).no_duplicates(),
    ensures
        surfaces(projection::group_with(groups, surface, entry)).no_duplicates(),
{
    let out = projection::group_with(groups, surface, entry);
    lemma_group_at(groups, surface);
    lemma_added_once(surfaces(groups), surface);
    if fold::group_at(groups, surface) < groups.len() {
        assert(surfaces(out) =~= surfaces(groups));
    } else {
        assert(surfaces(out) =~= surfaces(groups).push(surface));
    }
}

/// Do the names ascend? Then none is there twice.
pub open spec fn names_ascend(names: Seq<Seq<char>>) -> bool {
    forall|i: int, j: int|
        0 <= i < j < names.len() ==> text::before(#[trigger] names[i], #[trigger] names[j])
}

/// The name put into its place among ascending names.
pub open spec fn placed(names: Seq<Seq<char>>, name: Seq<char>) -> Seq<Seq<char>>
    decreases names.len(),
{
    if names.len() == 0 {
        seq![name]
    } else if names.last() == name {
        names
    } else if text::before(names.last(), name) {
        names.push(name)
    } else {
        placed(names.drop_last(), name).push(names.last())
    }
}

/// Putting a name into its place keeps the names ascending, and brings no other.
proof fn lemma_placed_ascends(names: Seq<Seq<char>>, name: Seq<char>)
    requires
        names_ascend(names),
    ensures
        names_ascend(placed(names, name)),
        forall|k: int|
            0 <= k < placed(names, name).len() ==> #[trigger] placed(names, name)[k] == name
                || names.contains(placed(names, name)[k]),
    decreases names.len(),
{
    let out = placed(names, name);
    if names.len() > 0 {
        let front = names.drop_last();
        let last = names.last();
        assert(names_ascend(front)) by {
            assert forall|i: int, j: int| 0 <= i < j < front.len() implies text::before(
                #[trigger] front[i],
                #[trigger] front[j],
            ) by {
                assert(text::before(names[i], names[j]));
            }
        }
        if last == name {
            assert forall|k: int| 0 <= k < out.len() implies names.contains(#[trigger] out[k]) by {
                assert(names[k] == out[k]);
            }
        } else if text::before(last, name) {
            assert forall|i: int, j: int| 0 <= i < j < out.len() implies text::before(
                #[trigger] out[i],
                #[trigger] out[j],
            ) by {
                if j < names.len() {
                    assert(text::before(names[i], names[j]));
                } else if i < names.len() - 1 {
                    assert(text::before(names[i], names[names.len() - 1]));
                    text::lemma_before_transitive(names[i], last, name);
                }
            }
            assert forall|k: int| 0 <= k < out.len() implies #[trigger] out[k] == name
                || names.contains(out[k]) by {
                if k < names.len() {
                    assert(names[k] == out[k]);
                }
            }
        } else {
            let inner = placed(front, name);
            lemma_placed_ascends(front, name);
            text::lemma_before_total(last, name);
            assert forall|i: int, j: int| 0 <= i < j < out.len() implies text::before(
                #[trigger] out[i],
                #[trigger] out[j],
            ) by {
                assert(out[i] == inner[i]);
                if j < inner.len() {
                    assert(out[j] == inner[j]);
                } else if inner[i] != name {
                    assert(front.contains(inner[i]));
                    let k = choose|k: int| 0 <= k < front.len() && front[k] == inner[i];
                    assert(text::before(names[k], names[names.len() - 1]));
                }
            }
            assert forall|k: int| 0 <= k < out.len() implies #[trigger] out[k] == name
                || names.contains(out[k]) by {
                if k < inner.len() {
                    assert(out[k] == inner[k]);
                    if inner[k] != name {
                        assert(front.contains(inner[k]));
                        let j = choose|j: int| 0 <= j < front.len() && front[j] == inner[k];
                        assert(names[j] == out[k]);
                    }
                } else {
                    assert(names[names.len() - 1] == out[k]);
                }
            }
        }
    }
}

/// The seats that have a transport anchor.
pub open spec fn anchored(list: Seq<AnchorV>) -> Seq<Seq<char>> {
    Seq::new(list.len(), |i: int| list[i].member)
}

proof fn lemma_anchored(list: Seq<AnchorV>, member: Seq<char>, pk: Seq<char>)
    ensures
        anchored(fold::anchors_after(list, member, pk)) == placed(anchored(list), member),
    decreases list.len(),
{
    let out = fold::anchors_after(list, member, pk);
    if list.len() > 0 {
        assert(anchored(list).drop_last() =~= anchored(list.drop_last()));
        assert(anchored(list).last() == list.last().member);
        lemma_anchored(list.drop_last(), member, pk);
    }
    assert(anchored(out) =~= placed(anchored(list), member));
}

/// Anchors in order of the seats stay so, each seat once.
pub proof fn a_seat_has_one_anchor(list: Seq<AnchorV>, member: Seq<char>, pk: Seq<char>)
    requires
        names_ascend(anchored(list)),
    ensures
        names_ascend(anchored(fold::anchors_after(list, member, pk))),
{
    lemma_anchored(list, member, pk);
    lemma_placed_ascends(anchored(list), member);
}

/// The seats that declared relays.
pub open spec fn declaring(list: Seq<DeclarationV>) -> Seq<Seq<char>> {
    Seq::new(list.len(), |i: int| list[i].member)
}

proof fn lemma_declaring(list: Seq<DeclarationV>, member: Seq<char>, relays: Seq<Seq<char>>)
    ensures
        declaring(fold::declarations_after(list, member, relays)) == placed(
            declaring(list),
            member,
        ),
    decreases list.len(),
{
    let out = fold::declarations_after(list, member, relays);
    if list.len() > 0 {
        assert(declaring(list).drop_last() =~= declaring(list.drop_last()));
        assert(declaring(list).last() == list.last().member);
        lemma_declaring(list.drop_last(), member, relays);
    }
    assert(declaring(out) =~= placed(declaring(list), member));
}

/// Declarations in order of the seats stay so, each seat once.
pub proof fn a_seat_has_one_declaration(
    list: Seq<DeclarationV>,
    member: Seq<char>,
    relays: Seq<Seq<char>>,
)
    requires
        names_ascend(declaring(list)),
    ensures
        names_ascend(declaring(fold::declarations_after(list, member, relays))),
{
    lemma_declaring(list, member, relays);
    lemma_placed_ascends(declaring(list), member);
}

/// What a holder decided to approve is listed in order, each id once.
pub proof fn an_approval_is_decided_once(ids: Seq<u64>, id: u64)
    requires
        fold::ids_ascend(ids),
        ids.no_duplicates(),
    ensures
        fold::ids_ascend(state::with_id(ids, id)),
        state::with_id(ids, id).no_duplicates(),
        forall|other: u64| #[trigger] state::with_id(ids, id).contains(other) <==> ids.contains(
            other,
        ) || other == id,
{
    if !ids.contains(id) {
        fold::lemma_insert_id(ids, id);
        lemma_inserted_once(ids, id);
    }
}

/// A new id put among the ids is there once, and the others as before.
proof fn lemma_inserted_once(ids: Seq<u64>, id: u64)
    requires
        ids.no_duplicates(),
        !ids.contains(id),
    ensures
        fold::insert_id(ids, id).no_duplicates(),
        forall|other: u64| #[trigger] fold::insert_id(ids, id).contains(other) <==> ids.contains(
            other,
        ) || other == id,
    decreases ids.len(),
{
    let out = fold::insert_id(ids, id);
    if ids.len() == 0 {
        assert(out[0] == id);
    } else {
        let front = ids.drop_last();
        let last = ids.last();
        assert(ids[ids.len() - 1] == last);
        assert(ids =~= front.push(last));
        assert(!front.contains(last)) by {
            if front.contains(last) {
                let i = choose|i: int| 0 <= i < front.len() && front[i] == last;
                assert(ids[i] == ids[ids.len() - 1]);
            }
        }
        assert forall|o: u64| #[trigger] ids.contains(o) <==> front.contains(o) || o == last by {
            if ids.contains(o) {
                let i = choose|i: int| 0 <= i < ids.len() && ids[i] == o;
                if i < front.len() {
                    assert(front[i] == o);
                }
            }
            if front.contains(o) {
                let i = choose|i: int| 0 <= i < front.len() && front[i] == o;
                assert(ids[i] == o);
            }
        }
        let inner = if last <= id {
            ids
        } else {
            fold::insert_id(front, id)
        };
        let end = if last <= id {
            id
        } else {
            last
        };
        if last > id {
            lemma_inserted_once(front, id);
        }
        assert(out == inner.push(end));
        assert(!inner.contains(end));
        assert forall|o: u64| #[trigger] out.contains(o) <==> inner.contains(o) || o == end by {
            if out.contains(o) {
                let i = choose|i: int| 0 <= i < out.len() && out[i] == o;
                if i < inner.len() {
                    assert(inner[i] == o);
                }
            }
            if inner.contains(o) {
                let i = choose|i: int| 0 <= i < inner.len() && inner[i] == o;
                assert(out[i] == o);
            }
            if o == end {
                assert(out[out.len() - 1] == o);
            }
        }
        assert forall|i: int, j: int| 0 <= i < j < out.len() implies out[i] != out[j] by {
            assert(out[i] == inner[i]);
            if j < inner.len() {
                assert(out[j] == inner[j]);
            } else {
                assert(inner.contains(inner[i]));
            }
        }
    }
}

/// Where everything passes, nothing is left out.
pub proof fn lemma_all_pass<A>(list: Seq<A>, pass: spec_fn(A) -> bool)
    requires
        forall|k: int| 0 <= k < list.len() ==> pass(#[trigger] list[k]),
    ensures
        list.filter(pass) == list,
    decreases list.len(),
{
    reveal(Seq::filter);
    if list.len() > 0 {
        let front = list.drop_last();
        assert forall|k: int| 0 <= k < front.len() implies pass(#[trigger] front[k]) by {
            assert(front[k] == list[k]);
        }
        lemma_all_pass(front, pass);
        assert(pass(list[list.len() - 1]));
        assert(list =~= front.push(list.last()));
    }
}

} // verus!
