//! A relation held as a list of rows, each a key and a value, and the map
//! that it stands for while no key occurs twice.

use vstd::prelude::*;

verus! {

/// No key occurs in two rows.
pub open spec fn keys_distinct<V>(rows: Seq<(i32, V)>) -> bool {
    forall|i: int, j: int| 0 <= i < j < rows.len() ==> rows[i].0 != rows[j].0
}

/// Some row has key `key`.
pub open spec fn has_key<V>(rows: Seq<(i32, V)>, key: i32) -> bool {
    exists|i: int| 0 <= i < rows.len() && #[trigger] rows[i].0 == key
}

/// The position of a row with key `key`.
pub open spec fn row_of<V>(rows: Seq<(i32, V)>, key: i32) -> int {
    choose|i: int| 0 <= i < rows.len() && #[trigger] rows[i].0 == key
}

/// The map from each key to the value of its row.
pub open spec fn as_map<V>(rows: Seq<(i32, V)>) -> Map<i32, V> {
    Map::new(|key: i32| has_key(rows, key), |key: i32| rows[row_of(rows, key)].1)
}

/// Row `i` is in the map, under its key and with its value.
pub proof fn lemma_row_in_map<V>(rows: Seq<(i32, V)>, i: int)
    requires
        keys_distinct(rows),
        0 <= i < rows.len(),
    ensures
        as_map(rows).dom().contains(rows[i].0),
        as_map(rows)[rows[i].0] == rows[i].1,
{
    let key = rows[i].0;
    assert(rows[i].0 == key);
    let at = row_of(rows, key);
    assert(at == i) by {
        if at < i {
            assert(rows[at].0 != rows[i].0);
        } else if i < at {
            assert(rows[i].0 != rows[at].0);
        }
    }
}

/// A key of the map is the key of some row.
pub proof fn lemma_key_has_row<V>(rows: Seq<(i32, V)>, key: i32) -> (i: int)
    requires
        as_map(rows).dom().contains(key),
    ensures
        0 <= i < rows.len(),
        rows[i].0 == key,
        as_map(rows)[key] == rows[i].1,
{
    row_of(rows, key)
}

/// A row appended under a key that no row has adds that key to the map.
pub proof fn lemma_push_row<V>(rows: Seq<(i32, V)>, key: i32, value: V)
    requires
        keys_distinct(rows),
        !has_key(rows, key),
    ensures
        keys_distinct(rows.push((key, value))),
        as_map(rows.push((key, value))) == as_map(rows).insert(key, value),
{
    let grown = rows.push((key, value));
    assert forall|i: int, j: int| 0 <= i < j < grown.len() implies grown[i].0 != grown[j].0 by {
        if j == rows.len() {
            assert(rows[i].0 == grown[i].0);
        } else {
            assert(grown[i] == rows[i] && grown[j] == rows[j]);
        }
    }
    assert forall|k: i32| as_map(grown).dom().contains(k) <==> as_map(rows).insert(
        key,
        value,
    ).dom().contains(k) by {
        if has_key(grown, k) {
            let i = row_of(grown, k);
            if i < rows.len() {
                assert(rows[i].0 == k);
            }
        }
        if has_key(rows, k) {
            let i = row_of(rows, k);
            assert(grown[i].0 == k);
        }
        if k == key {
            assert(grown[rows.len() as int].0 == k);
        }
    }
    assert forall|k: i32| as_map(grown).dom().contains(k) implies as_map(grown)[k] == as_map(
        rows,
    ).insert(key, value)[k] by {
        let i = lemma_key_has_row(grown, k);
        lemma_row_in_map(grown, i);
        if i < rows.len() {
            assert(rows[i] == grown[i]);
            lemma_row_in_map(rows, i);
        }
    }
    assert(as_map(grown) =~= as_map(rows).insert(key, value));
}

/// A new value in row `i` replaces the value under that row's key.
pub proof fn lemma_update_row<V>(rows: Seq<(i32, V)>, i: int, value: V)
    requires
        keys_distinct(rows),
        0 <= i < rows.len(),
    ensures
        keys_distinct(rows.update(i, (rows[i].0, value))),
        as_map(rows.update(i, (rows[i].0, value))) == as_map(rows).insert(rows[i].0, value),
{
    let key = rows[i].0;
    let changed = rows.update(i, (key, value));
    assert forall|a: int, b: int| 0 <= a < b < changed.len() implies changed[a].0
        != changed[b].0 by {
        assert(changed[a].0 == rows[a].0 && changed[b].0 == rows[b].0);
    }
    assert forall|k: i32| as_map(changed).dom().contains(k) <==> as_map(rows).insert(
        key,
        value,
    ).dom().contains(k) by {
        if has_key(changed, k) {
            let a = row_of(changed, k);
            assert(rows[a].0 == k);
        }
        if has_key(rows, k) {
            let a = row_of(rows, k);
            assert(changed[a].0 == k);
        }
        if k == key {
            assert(changed[i].0 == k);
        }
    }
    assert forall|k: i32| as_map(changed).dom().contains(k) implies as_map(changed)[k] == as_map(
        rows,
    ).insert(key, value)[k] by {
        let a = lemma_key_has_row(changed, k);
        lemma_row_in_map(changed, a);
        if a != i {
            assert(rows[a] == changed[a]);
            lemma_row_in_map(rows, a);
        }
    }
    assert(as_map(changed) =~= as_map(rows).insert(key, value));
}

/// Without row `i` the map lacks that row's key.
pub proof fn lemma_remove_row<V>(rows: Seq<(i32, V)>, i: int)
    requires
        keys_distinct(rows),
        0 <= i < rows.len(),
    ensures
        keys_distinct(rows.remove(i)),
        as_map(rows.remove(i)) == as_map(rows).remove(rows[i].0),
{
    let key = rows[i].0;
    let fewer = rows.remove(i);
    assert forall|a: int, b: int| 0 <= a < b < fewer.len() implies fewer[a].0 != fewer[b].0 by {
        let a0 = if a < i { a } else { a + 1 };
        let b0 = if b < i { b } else { b + 1 };
        assert(fewer[a] == rows[a0] && fewer[b] == rows[b0]);
    }
    assert forall|k: i32| as_map(fewer).dom().contains(k) <==> as_map(rows).remove(
        key,
    ).dom().contains(k) by {
        if has_key(fewer, k) {
            let a = row_of(fewer, k);
            let a0 = if a < i { a } else { a + 1 };
            assert(rows[a0] == fewer[a]);
            assert(rows[a0].0 == k);
            if a0 < i {
                assert(rows[a0].0 != rows[i].0);
            } else {
                assert(rows[i].0 != rows[a0].0);
            }
        }
        if has_key(rows, k) && k != key {
            let a0 = row_of(rows, k);
            let a = if a0 < i { a0 } else { a0 - 1 };
            assert(fewer[a] == rows[a0]);
            assert(fewer[a].0 == k);
        }
    }
    assert forall|k: i32| as_map(fewer).dom().contains(k) implies as_map(fewer)[k] == as_map(
        rows,
    ).remove(key)[k] by {
        let a = lemma_key_has_row(fewer, k);
        lemma_row_in_map(fewer, a);
        let a0 = if a < i { a } else { a + 1 };
        assert(rows[a0] == fewer[a]);
        lemma_row_in_map(rows, a0);
    }
    assert(as_map(fewer) =~= as_map(rows).remove(key));
}

} // verus!
