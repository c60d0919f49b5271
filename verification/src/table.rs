//! A table from numbers to values, ascending by number.

use std::collections::BTreeMap;
use vstd::prelude::*;

verus! {

/// One row of a [`Table`].
#[derive(Debug, PartialEq, Eq)]
pub struct Row<'a, T> {
    pub key: u64,
    pub value: &'a T,
}

/// A table from numbers to values. It reads as its rows, ascending by key.
#[derive(Debug, PartialEq, Eq)]
pub struct Table<T> {
    map: BTreeMap<u64, T>,
}

impl<'a, T: DeepView> DeepView for Row<'a, T> {
    type V = (u64, T::V);

    open spec fn deep_view(&self) -> (u64, T::V) {
        (self.key, self.value.deep_view())
    }
}

impl<T: DeepView> DeepView for Table<T> {
    type V = Seq<(u64, T::V)>;

    closed spec fn deep_view(&self) -> Seq<(u64, T::V)> {
        rows_of(self.map@)
    }
}

/// Are those the rows of the map: ascending, and reading as the map does?
spec fn are_rows<T: DeepView>(map: Map<u64, T>, rows: Seq<(u64, T::V)>) -> bool {
    &&& keys_ascend(rows)
    &&& forall|key: u64| #[trigger]
        get(rows, key) == (if map.contains_key(key) {
            Some(map[key].deep_view())
        } else {
            None
        })
}

/// The rows of a map.
spec fn rows_of<T: DeepView>(map: Map<u64, T>) -> Seq<(u64, T::V)> {
    choose|rows: Seq<(u64, T::V)>| are_rows(map, rows)
}

/// The value under `key`.
pub open spec fn get<V>(rows: Seq<(u64, V)>, key: u64) -> Option<V>
    decreases rows.len(),
{
    if rows.len() == 0 {
        None
    } else if rows.last().0 == key {
        Some(rows.last().1)
    } else {
        get(rows.drop_last(), key)
    }
}

/// Is there a value under `key`?
pub open spec fn has<V>(rows: Seq<(u64, V)>, key: u64) -> bool {
    get(rows, key) is Some
}

/// The rows with `value` under `key`.
pub open spec fn put<V>(rows: Seq<(u64, V)>, key: u64, value: V) -> Seq<(u64, V)>
    decreases rows.len(),
{
    if rows.len() == 0 {
        seq![(key, value)]
    } else if rows.last().0 == key {
        rows.drop_last().push((key, value))
    } else if rows.last().0 < key {
        rows.push((key, value))
    } else {
        put(rows.drop_last(), key, value).push(rows.last())
    }
}

/// The rows without `key`.
pub open spec fn del<V>(rows: Seq<(u64, V)>, key: u64) -> Seq<(u64, V)>
    decreases rows.len(),
{
    if rows.len() == 0 {
        rows
    } else if rows.last().0 == key {
        del(rows.drop_last(), key)
    } else {
        del(rows.drop_last(), key).push(rows.last())
    }
}

/// The rows whose key is above `floor`.
pub open spec fn above<V>(rows: Seq<(u64, V)>, floor: u64) -> Seq<(u64, V)>
    decreases rows.len(),
{
    if rows.len() == 0 {
        rows
    } else if rows.last().0 > floor {
        above(rows.drop_last(), floor).push(rows.last())
    } else {
        above(rows.drop_last(), floor)
    }
}

/// The keys ascend strictly: nothing occurs twice.
pub open spec fn keys_ascend<V>(rows: Seq<(u64, V)>) -> bool {
    forall|i: int, j: int| 0 <= i < j < rows.len() ==> (#[trigger] rows[i]).0 < (#[trigger] rows[j]).0
}

/// A value that was put is what is read; every other key reads as before.
pub proof fn reading_a_put<V>(rows: Seq<(u64, V)>, key: u64, value: V, other: u64)
    ensures
        get(put(rows, key, value), other) == (if other == key {
            Some(value)
        } else {
            get(rows, other)
        }),
    decreases rows.len(),
{
    if rows.len() > 0 {
        let last = rows.last();
        if last.0 == key {
            assert(rows.drop_last().push((key, value)).drop_last() =~= rows.drop_last());
        } else if last.0 < key {
            assert(rows.push((key, value)).drop_last() =~= rows);
        } else {
            reading_a_put(rows.drop_last(), key, value, other);
            let inner = put(rows.drop_last(), key, value);
            assert(inner.push(last).drop_last() =~= inner);
        }
    } else {
        assert(seq![(key, value)].drop_last() =~= rows);
    }
}

/// A key that was removed reads as absent; every other key reads as before.
pub proof fn reading_a_removal<V>(rows: Seq<(u64, V)>, key: u64, other: u64)
    ensures
        get(del(rows, key), other) == (if other == key {
            None
        } else {
            get(rows, other)
        }),
    decreases rows.len(),
{
    if rows.len() > 0 {
        reading_a_removal(rows.drop_last(), key, other);
        let inner = del(rows.drop_last(), key);
        assert(inner.push(rows.last()).drop_last() =~= inner);
    }
}

/// Putting a value keeps the keys ascending.
pub proof fn putting_keeps_the_order<V>(rows: Seq<(u64, V)>, key: u64, value: V)
    requires
        keys_ascend(rows),
    ensures
        keys_ascend(put(rows, key, value)),
        forall|i: int|
            0 <= i < put(rows, key, value).len() ==> {
                ||| (#[trigger] put(rows, key, value)[i]).0 == key
                ||| exists|j: int| 0 <= j < rows.len() && (#[trigger] rows[j]).0 == put(
                    rows,
                    key,
                    value,
                )[i].0
            },
    decreases rows.len(),
{
    let out = put(rows, key, value);
    if rows.len() > 0 {
        let front = rows.drop_last();
        let last = rows.last();
        assert forall|i: int| 0 <= i < rows.len() - 1 implies (#[trigger] rows[i]).0 < last.0 by {
            assert(rows[i].0 < rows[rows.len() - 1].0);
        }
        if last.0 == key || last.0 < key {
            assert forall|i: int, j: int| 0 <= i < j < out.len() implies (#[trigger] out[i]).0 < (
            #[trigger] out[j]).0 by {
                if i < rows.len() - 1 {
                    assert(out[i] == rows[i]);
                }
                if j < rows.len() - 1 {
                    assert(out[j] == rows[j]);
                }
            }
            assert forall|i: int| 0 <= i < out.len() implies {
                ||| (#[trigger] out[i]).0 == key
                ||| exists|j: int| 0 <= j < rows.len() && (#[trigger] rows[j]).0 == out[i].0
            } by {
                if i < rows.len() && out[i].0 != key {
                    assert(rows[i].0 == out[i].0);
                }
            }
        } else {
            putting_keeps_the_order(front, key, value);
            let inner = put(front, key, value);
            assert forall|i: int| 0 <= i < inner.len() implies (#[trigger] inner[i]).0 < last.0 by {
                if inner[i].0 != key {
                    let j = choose|j: int| 0 <= j < front.len() && (#[trigger] front[j]).0 == inner[i].0;
                    assert(front[j] == rows[j]);
                }
            }
            assert forall|i: int, j: int| 0 <= i < j < out.len() implies (#[trigger] out[i]).0 < (
            #[trigger] out[j]).0 by {
                assert(out[i] == inner[i]);
                if j < inner.len() {
                    assert(out[j] == inner[j]);
                }
            }
            assert forall|i: int| 0 <= i < out.len() implies {
                ||| (#[trigger] out[i]).0 == key
                ||| exists|j: int| 0 <= j < rows.len() && (#[trigger] rows[j]).0 == out[i].0
            } by {
                if i < inner.len() {
                    assert(out[i] == inner[i]);
                    if inner[i].0 != key {
                        let j = choose|j: int|
                            0 <= j < front.len() && (#[trigger] front[j]).0 == inner[i].0;
                        assert(rows[j].0 == out[i].0);
                    }
                } else {
                    assert(rows[rows.len() - 1].0 == out[i].0);
                }
            }
        }
    }
}

/// Removing a key keeps the keys ascending, and brings none.
pub proof fn removing_keeps_the_order<V>(rows: Seq<(u64, V)>, key: u64)
    requires
        keys_ascend(rows),
    ensures
        keys_ascend(del(rows, key)),
        forall|i: int|
            0 <= i < del(rows, key).len() ==> exists|j: int|
                0 <= j < rows.len() && rows[j] == #[trigger] del(rows, key)[i],
    decreases rows.len(),
{
    if rows.len() > 0 {
        let front = rows.drop_last();
        let last = rows.last();
        let inner = del(front, key);
        let out = del(rows, key);
        assert forall|i: int, j: int| 0 <= i < j < front.len() implies (#[trigger] front[i]).0 < (
        #[trigger] front[j]).0 by {
            assert(rows[i].0 < rows[j].0);
        }
        removing_keeps_the_order(front, key);
        assert forall|i: int| 0 <= i < inner.len() implies (#[trigger] inner[i]).0 < last.0 by {
            let j = choose|j: int| 0 <= j < front.len() && front[j] == inner[i];
            assert(rows[j].0 < rows[rows.len() - 1].0);
        }
        assert forall|i: int| 0 <= i < out.len() implies exists|j: int|
            0 <= j < rows.len() && rows[j] == #[trigger] out[i] by {
            if i < inner.len() {
                assert(out[i] == inner[i]);
                let j = choose|j: int| 0 <= j < front.len() && front[j] == inner[i];
                assert(rows[j] == out[i]);
            } else {
                assert(rows[rows.len() - 1] == out[i]);
            }
        }
        assert forall|i: int, j: int| 0 <= i < j < out.len() implies (#[trigger] out[i]).0 < (
        #[trigger] out[j]).0 by {
            assert(out[i] == inner[i]);
            if j < inner.len() {
                assert(out[j] == inner[j]);
            }
        }
    }
}

/// In a table, each row is what is read under its key.
pub proof fn a_row_is_what_is_read<V>(rows: Seq<(u64, V)>, i: int)
    requires
        keys_ascend(rows),
        0 <= i < rows.len(),
    ensures
        get(rows, rows[i].0) == Some(rows[i].1),
    decreases rows.len(),
{
    if i < rows.len() - 1 {
        let front = rows.drop_last();
        assert(rows[i].0 < rows[rows.len() - 1].0);
        assert forall|a: int, b: int| 0 <= a < b < front.len() implies (#[trigger] front[a]).0 < (
        #[trigger] front[b]).0 by {
            assert(rows[a].0 < rows[b].0);
        }
        assert(front[i] == rows[i]);
        a_row_is_what_is_read(front, i);
    }
}

/// What is read is a row.
pub proof fn what_is_read_is_a_row<V>(rows: Seq<(u64, V)>, key: u64) -> (i: int)
    requires
        has(rows, key),
    ensures
        0 <= i < rows.len(),
        rows[i].0 == key,
        get(rows, key) == Some(rows[i].1),
    decreases rows.len(),
{
    if rows.last().0 == key {
        rows.len() - 1
    } else {
        what_is_read_is_a_row(rows.drop_last(), key)
    }
}

/// Without its last row a table is one.
proof fn lemma_front_ascends<V>(rows: Seq<(u64, V)>)
    requires
        keys_ascend(rows),
        rows.len() > 0,
    ensures
        keys_ascend(rows.drop_last()),
        get(rows.drop_last(), rows.last().0) is None,
{
    let front = rows.drop_last();
    assert forall|i: int, j: int| 0 <= i < j < front.len() implies (#[trigger] front[i]).0 < (
    #[trigger] front[j]).0 by {
        assert(rows[i].0 < rows[j].0);
    }
    if has(front, rows.last().0) {
        let k = what_is_read_is_a_row(front, rows.last().0);
        assert(rows[k].0 < rows[rows.len() - 1].0);
    }
}

/// Two tables that read alike are the same.
pub proof fn tables_that_read_alike_are_the_same<V>(a: Seq<(u64, V)>, b: Seq<(u64, V)>)
    requires
        keys_ascend(a),
        keys_ascend(b),
        forall|key: u64| #[trigger] get(a, key) == get(b, key),
    ensures
        a == b,
    decreases a.len(),
{
    if a.len() == 0 {
        if b.len() > 0 {
            assert(get(b, b.last().0) is Some);
            assert(get(a, b.last().0) is None);
        }
        assert(a =~= b);
    } else {
        let key = a.last().0;
        assert(get(a, key) == get(b, key));
        let k = what_is_read_is_a_row(b, key);
        let top = b.last().0;
        assert(get(b, top) is Some);
        assert(get(a, top) == get(b, top));
        let m = what_is_read_is_a_row(a, top);
        if m < a.len() - 1 {
            assert(a[m].0 < a[a.len() - 1].0);
        }
        if k < b.len() - 1 {
            assert(b[k].0 < b[b.len() - 1].0);
        }
        assert(top == key);
        lemma_front_ascends(a);
        lemma_front_ascends(b);
        assert forall|other: u64| #[trigger] get(a.drop_last(), other) == get(
            b.drop_last(),
            other,
        ) by {
            assert(get(a, other) == get(b, other));
        }
        tables_that_read_alike_are_the_same(a.drop_last(), b.drop_last());
        assert(a =~= a.drop_last().push(a.last()));
        assert(b =~= b.drop_last().push(b.last()));
    }
}

/// Every map has rows.
proof fn lemma_has_rows<T: DeepView>(map: Map<u64, T>)
    requires
        map.dom().finite(),
    ensures
        exists|rows: Seq<(u64, T::V)>| are_rows(map, rows),
    decreases map.dom().len(),
{
    if map.dom().len() == 0 {
        assert(map.dom() =~= Set::empty());
        assert forall|key: u64| !map.contains_key(key) by {
            assert(!map.dom().contains(key));
        }
        assert(are_rows(map, Seq::<(u64, T::V)>::empty()));
    } else {
        let key = map.dom().choose();
        let rest = map.remove(key);
        assert(rest.dom() =~= map.dom().remove(key));
        lemma_has_rows(rest);
        let rows = choose|rows: Seq<(u64, T::V)>| are_rows(rest, rows);
        lemma_put_rows(rest, rows, key, map[key]);
        assert(rest.insert(key, map[key]) =~= map);
    }
}

/// The rows with one put are those of the map with it inserted.
proof fn lemma_put_rows<T: DeepView>(
    map: Map<u64, T>,
    rows: Seq<(u64, T::V)>,
    key: u64,
    value: T,
)
    requires
        are_rows(map, rows),
    ensures
        are_rows(map.insert(key, value), put(rows, key, value.deep_view())),
{
    putting_keeps_the_order(rows, key, value.deep_view());
    let now = map.insert(key, value);
    assert forall|other: u64| #[trigger]
        get(put(rows, key, value.deep_view()), other) == (if now.contains_key(other) {
            Some(now[other].deep_view())
        } else {
            None
        }) by {
        reading_a_put(rows, key, value.deep_view(), other);
        assert(get(rows, other) == (if map.contains_key(other) {
            Some(map[other].deep_view())
        } else {
            None
        }));
    }
}

/// The rows without a key are those of the map without it.
proof fn lemma_del_rows<T: DeepView>(map: Map<u64, T>, rows: Seq<(u64, T::V)>, key: u64)
    requires
        are_rows(map, rows),
    ensures
        are_rows(map.remove(key), del(rows, key)),
{
    removing_keeps_the_order(rows, key);
    let now = map.remove(key);
    assert forall|other: u64| #[trigger]
        get(del(rows, key), other) == (if now.contains_key(other) {
            Some(now[other].deep_view())
        } else {
            None
        }) by {
        reading_a_removal(rows, key, other);
        assert(get(rows, other) == (if map.contains_key(other) {
            Some(map[other].deep_view())
        } else {
            None
        }));
    }
}

/// A map has as many rows as keys.
proof fn lemma_rows_len<T: DeepView>(map: Map<u64, T>, rows: Seq<(u64, T::V)>)
    requires
        map.dom().finite(),
        are_rows(map, rows),
    ensures
        rows.len() == map.dom().len(),
    decreases rows.len(),
{
    if rows.len() == 0 {
        assert forall|key: u64| !map.dom().contains(key) by {
            assert(get(rows, key) is None);
        }
        assert(map.dom() =~= Set::empty());
    } else {
        let key = rows.last().0;
        let front = rows.drop_last();
        let rest = map.remove(key);
        assert(get(rows, key) is Some);
        assert(map.dom().contains(key));
        lemma_front_ascends(rows);
        assert forall|other: u64| #[trigger]
            get(front, other) == (if rest.contains_key(other) {
                Some(rest[other].deep_view())
            } else {
                None
            }) by {
            assert(get(rows, other) == (if map.contains_key(other) {
                Some(map[other].deep_view())
            } else {
                None
            }));
        }
        assert(rest.dom() =~= map.dom().remove(key));
        lemma_rows_len(rest, front);
    }
}

/// Whatever rows a map has, they are its rows.
proof fn lemma_the_rows<T: DeepView>(map: Map<u64, T>, rows: Seq<(u64, T::V)>)
    requires
        are_rows(map, rows),
    ensures
        rows_of(map) == rows,
{
    let chosen = rows_of(map);
    assert(are_rows(map, chosen));
    assert forall|key: u64| #[trigger] get(chosen, key) == get(rows, key) by {}
    tables_that_read_alike_are_the_same(chosen, rows);
}

/// What is kept above a floor is read as before, and nothing else is.
proof fn lemma_reading_above<V>(rows: Seq<(u64, V)>, floor: u64, key: u64)
    ensures
        get(above(rows, floor), key) == (if key > floor {
            get(rows, key)
        } else {
            None
        }),
    decreases rows.len(),
{
    if rows.len() > 0 {
        lemma_reading_above(rows.drop_last(), floor, key);
        let inner = above(rows.drop_last(), floor);
        assert(inner.push(rows.last()).drop_last() =~= inner);
    }
}

/// What is kept above a floor ascends.
proof fn lemma_above_ascends<V>(rows: Seq<(u64, V)>, floor: u64)
    requires
        keys_ascend(rows),
    ensures
        keys_ascend(above(rows, floor)),
        forall|i: int|
            0 <= i < above(rows, floor).len() ==> has(rows, (#[trigger] above(rows, floor)[i]).0),
    decreases rows.len(),
{
    if rows.len() > 0 {
        let front = rows.drop_last();
        let inner = above(front, floor);
        let out = above(rows, floor);
        lemma_front_ascends(rows);
        lemma_above_ascends(front, floor);
        assert forall|i: int| 0 <= i < inner.len() implies (#[trigger] inner[i]).0
            < rows.last().0 by {
            assert(has(front, inner[i].0));
            let k = what_is_read_is_a_row(front, inner[i].0);
            assert(rows[k].0 < rows[rows.len() - 1].0);
        }
        assert forall|i: int, j: int| 0 <= i < j < out.len() implies (#[trigger] out[i]).0 < (
        #[trigger] out[j]).0 by {
            assert(out[i] == inner[i]);
            if j < inner.len() {
                assert(out[j] == inner[j]);
            }
        }
        assert forall|i: int| 0 <= i < out.len() implies has(rows, (#[trigger] out[i]).0) by {
            if i < inner.len() {
                assert(out[i] == inner[i]);
                assert(has(front, inner[i].0));
            }
        }
    }
}

/// Removing the last key removes the last row.
proof fn lemma_del_last<V>(rows: Seq<(u64, V)>)
    requires
        keys_ascend(rows),
        rows.len() > 0,
    ensures
        del(rows, rows.last().0) == rows.drop_last(),
{
    lemma_front_ascends(rows);
    lemma_del_absent(rows.drop_last(), rows.last().0);
}

/// Removing a key that is not there changes nothing.
proof fn lemma_del_absent<V>(rows: Seq<(u64, V)>, key: u64)
    requires
        get(rows, key) is None,
    ensures
        del(rows, key) == rows,
    decreases rows.len(),
{
    if rows.len() > 0 {
        lemma_del_absent(rows.drop_last(), key);
        assert(rows.drop_last().push(rows.last()) =~= rows);
    }
}

/// Whatever was done with a table, its keys ascend: nothing occurs twice.
pub proof fn a_table_ascends<T: DeepView>(table: Table<T>)
    ensures
        keys_ascend(table.deep_view()),
{
    table.lemma_rows();
}

impl<T: DeepView> Table<T> {
    /// The rows of the table are those of its map.
    proof fn lemma_rows(self)
        ensures
            are_rows(self.map@, self.deep_view()),
            self.deep_view().len() == self.map@.dom().len(),
            self.map@.dom().finite(),
    {
        broadcast use vstd::std_specs::btree::group_btree_axioms;

        lemma_has_rows(self.map@);
        lemma_rows_len(self.map@, rows_of(self.map@));
    }

    /// An empty table.
    pub fn new() -> (r: Self)
        ensures
            r.deep_view() == Seq::<(u64, T::V)>::empty(),
    {
        let r = Table { map: BTreeMap::new() };
        assert(are_rows(r.map@, Seq::<(u64, T::V)>::empty()));
        proof {
            lemma_the_rows(r.map@, Seq::<(u64, T::V)>::empty());
        }
        r
    }

    /// The number of rows.
    pub fn len(&self) -> (r: usize)
        ensures
            r == self.deep_view().len(),
    {
        broadcast use vstd::std_specs::btree::group_btree_axioms;

        proof {
            self.lemma_rows();
        }
        self.map.len()
    }

    /// Are there no rows?
    pub fn is_empty(&self) -> (r: bool)
        ensures
            r == (self.deep_view().len() == 0),
    {
        self.len() == 0
    }

    /// The rows, ascending by key.
    pub fn rows(&self) -> (r: Vec<Row<'_, T>>)
        ensures
            r.deep_view() == self.deep_view(),
    {
        broadcast use vstd::std_specs::btree::group_btree_axioms;

        let walk = self.map.iter();
        let mut out: Vec<Row<'_, T>> = Vec::new();
        let ghost pairs = vstd::std_specs::iter::IteratorSpec::remaining(&walk);
        let ghost keys = pairs.map_values(|kv: (&u64, &T)| *kv.0);
        assert(vstd::std_specs::btree::increasing_seq(keys));
        for kv in it: walk
            invariant
                it.seq() == pairs,
                out.len() == it.index(),
                forall|k: int|
                    0 <= k < it.index() ==> (#[trigger] out@[k]).deep_view() == (
                        *pairs[k].0,
                        pairs[k].1.deep_view(),
                    ),
        {
            assert(pairs[it.index()] == kv);
            out.push(Row { key: *kv.0, value: kv.1 });
        }
        proof {
            let rows = out.deep_view();
            let map = self.map@;
            assert forall|i: int, j: int| 0 <= i < j < rows.len() implies (#[trigger] rows[i]).0 < (
            #[trigger] rows[j]).0 by {
                assert(vstd::std_specs::cmp::OrdSpec::cmp_spec(&keys[i], &keys[j]) is Less);
                assert(rows[i].0 == keys[i] && rows[j].0 == keys[j]);
            }
            assert forall|key: u64| #[trigger]
                get(rows, key) == (if map.contains_key(key) {
                    Some(map[key].deep_view())
                } else {
                    None
                }) by {
                if map.contains_key(key) {
                    assert(pairs.contains((&key, &map[key])));
                    let k = choose|k: int| 0 <= k < pairs.len() && pairs[k] == (&key, &map[key]);
                    assert(rows[k] == (key, map[key].deep_view()));
                    a_row_is_what_is_read(rows, k);
                } else if has(rows, key) {
                    let k = what_is_read_is_a_row(rows, key);
                    assert(map.contains_key(*pairs[k].0));
                }
            }
            lemma_the_rows(map, rows);
        }
        out
    }

    /// The value under `key`.
    pub fn get(&self, key: u64) -> (r: Option<&T>)
        ensures
            match r {
                Some(v) => get(self.deep_view(), key) == Some(v.deep_view()),
                None => get(self.deep_view(), key) is None,
            },
    {
        broadcast use vstd::std_specs::btree::group_btree_axioms;

        proof {
            self.lemma_rows();
            assert(get(self.deep_view(), key) is Some <==> self.map@.contains_key(key));
        }
        self.map.get(&key)
    }

    /// Is there a value under `key`?
    pub fn contains_key(&self, key: u64) -> (r: bool)
        ensures
            r == has(self.deep_view(), key),
    {
        self.get(key).is_some()
    }

    /// Puts `value` under `key`.
    pub fn insert(&mut self, key: u64, value: T)
        ensures
            final(self).deep_view() == put(old(self).deep_view(), key, value.deep_view()),
    {
        broadcast use vstd::std_specs::btree::group_btree_axioms;

        let ghost map = self.map@;
        let ghost rows = self.deep_view();
        proof {
            self.lemma_rows();
            lemma_put_rows(map, rows, key, value);
            lemma_the_rows(map.insert(key, value), put(rows, key, value.deep_view()));
        }
        self.map.insert(key, value);
    }

    /// Removes `key`.
    pub fn remove(&mut self, key: u64)
        ensures
            final(self).deep_view() == del(old(self).deep_view(), key),
    {
        broadcast use vstd::std_specs::btree::group_btree_axioms;

        let ghost map = self.map@;
        let ghost rows = self.deep_view();
        proof {
            self.lemma_rows();
            lemma_del_rows(map, rows, key);
            lemma_the_rows(map.remove(key), del(rows, key));
        }
        self.map.remove(&key);
    }

    /// The keys, ascending.
    fn keys(&self) -> (r: Vec<u64>)
        ensures
            r@.len() == self.deep_view().len(),
            forall|i: int| 0 <= i < r@.len() ==> #[trigger] r@[i] == self.deep_view()[i].0,
    {
        let rows = self.rows();
        let mut out: Vec<u64> = Vec::new();
        let mut i: usize = 0;
        while i < rows.len()
            invariant
                i <= rows.len(),
                out.len() == i,
                rows.deep_view() == self.deep_view(),
                forall|k: int| 0 <= k < i ==> #[trigger] out@[k] == self.deep_view()[k].0,
            decreases rows.len() - i,
        {
            assert(rows.deep_view()[i as int] == rows@[i as int].deep_view());
            out.push(rows[i].key);
            i = i + 1;
        }
        out
    }

    /// Keeps only the rows whose key is above `floor`.
    pub fn keep_above(&mut self, floor: u64)
        ensures
            final(self).deep_view() == above(old(self).deep_view(), floor),
    {
        let ghost all = self.deep_view();
        let keys = self.keys();
        proof {
            self.lemma_rows();
        }
        let mut i: usize = 0;
        while i < keys.len()
            invariant
                i <= keys.len(),
                keys@.len() == all.len(),
                keys_ascend(all),
                forall|k: int| 0 <= k < keys@.len() ==> #[trigger] keys@[k] == all[k].0,
                forall|key: u64| #[trigger]
                    get(self.deep_view(), key) == (if key <= floor && exists|k: int|
                        0 <= k < i && keys@[k] == key {
                        None
                    } else {
                        get(all, key)
                    }),
            decreases keys.len() - i,
        {
            let ghost before = self.deep_view();
            if keys[i] <= floor {
                self.remove(keys[i]);
            }
            proof {
                assert forall|key: u64| #[trigger]
                    get(self.deep_view(), key) == (if key <= floor && exists|k: int|
                        0 <= k < i + 1 && keys@[k] == key {
                        None
                    } else {
                        get(all, key)
                    }) by {
                    reading_a_removal(before, keys@[i as int], key);
                    if exists|k: int| 0 <= k < i && keys@[k] == key {
                        let k = choose|k: int| 0 <= k < i && keys@[k] == key;
                        assert(0 <= k < i + 1 && keys@[k] == key);
                    }
                }
            }
            i = i + 1;
        }
        proof {
            let kept = self.deep_view();
            self.lemma_rows();
            lemma_above_ascends(all, floor);
            assert forall|key: u64| #[trigger] get(kept, key) == get(above(all, floor), key) by {
                lemma_reading_above(all, floor, key);
                if has(all, key) {
                    let k = what_is_read_is_a_row(all, key);
                    assert(keys@[k] == key);
                }
            }
            tables_that_read_alike_are_the_same(kept, above(all, floor));
        }
    }

    /// Keeps only the first `n` rows.
    pub fn keep_first(&mut self, n: usize)
        ensures
            final(self).deep_view() == (if old(self).deep_view().len() > n {
                old(self).deep_view().take(n as int)
            } else {
                old(self).deep_view()
            }),
    {
        let ghost all = self.deep_view();
        let keys = self.keys();
        let mut left: usize = keys.len();
        assert(all.take(left as int) =~= all);
        while left > n
            invariant
                left <= keys.len(),
                keys@.len() == all.len(),
                n <= left || left == keys.len(),
                self.deep_view() == all.take(left as int),
                forall|k: int| 0 <= k < keys@.len() ==> #[trigger] keys@[k] == all[k].0,
            decreases left,
        {
            proof {
                self.lemma_rows();
                assert(self.deep_view().last() == all[left - 1]);
                lemma_del_last(self.deep_view());
                assert(all.take(left as int).drop_last() =~= all.take(left - 1));
            }
            left = left - 1;
            self.remove(keys[left]);
        }
    }
}

} // verus!
