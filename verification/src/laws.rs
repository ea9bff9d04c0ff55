//! What holds of every obfuscation, stated and proved over the mathematical
//! definition of the transform.

use crate::json::{replaces_string, JsonView, NumberKind};
use crate::model::{
    covers, distinct_keys, extends, has_key, insert_entry, key_index, keys_of, lemma_entry_within,
    lemma_item_within, obfuscated, obfuscated_entries, obfuscated_items, scalars_of, Entries,
    KeyMap, ValueMap,
};
use crate::tables::{replaces_value, string_replacements_valid, value_replacements_valid};
use vstd::prelude::*;

verus! {

/// The shape of a value: its kind, and what obfuscation keeps of its size.
/// A number has its sub-kind, a string its length, an array the shapes of
/// its items, an object the lengths of its keys with the shapes of their
/// values.
pub enum Shape {
    Null,
    Bool,
    Number(NumberKind),
    String(nat),
    Array(Seq<Shape>),
    Object(Seq<(nat, Shape)>),
}

/// The shape of `v`.
pub open spec fn shape_of(v: JsonView) -> Shape
    decreases v,
{
    match v {
        JsonView::Null => Shape::Null,
        JsonView::Bool(_) => Shape::Bool,
        JsonView::Number(n) => Shape::Number(n.sub_kind()),
        JsonView::String(s) => Shape::String(s.len()),
        JsonView::Array(items) => Shape::Array(
            Seq::new(
                items.len(),
                |i: int|
                    if 0 <= i < items.len() {
                        shape_of(items[i])
                    } else {
                        Shape::Null
                    },
            ),
        ),
        JsonView::Object(entries) => Shape::Object(
            Seq::new(
                entries.len(),
                |i: int|
                    if 0 <= i < entries.len() {
                        (entries[i].0.len(), shape_of(entries[i].1))
                    } else {
                        (0nat, Shape::Null)
                    },
            ),
        ),
    }
}

/// In every object of `v`, at any depth, no two entries get the same
/// replacement for their keys.
pub open spec fn collision_free(v: JsonView, keys: KeyMap) -> bool
    decreases v,
{
    match v {
        JsonView::Array(items) => forall|i: int|
            0 <= i < items.len() ==> collision_free(#[trigger] items[i], keys),
        JsonView::Object(entries) => {
            &&& forall|i: int, j: int|
                0 <= i < j < entries.len() ==> keys[(#[trigger] entries[i]).0] != keys[(
                #[trigger] entries[j]).0]
            &&& forall|i: int|
                0 <= i < entries.len() ==> collision_free((#[trigger] entries[i]).1, keys)
        },
        _ => true,
    }
}

/// The entries of an object with each key replaced and each value
/// obfuscated, every entry in its place.
pub open spec fn replaced_entries(entries: Entries, n: nat, keys: KeyMap, values: ValueMap) -> Entries {
    Seq::new(n, |i: int| (keys[entries[i].0], obfuscated(entries[i].1, keys, values)))
}

/// Null and booleans pass through, whatever the tables hold.
pub proof fn law_null_and_bool_pass_through(v: JsonView, keys: KeyMap, values: ValueMap)
    requires
        v is Null || v is Bool,
    ensures
        obfuscated(v, keys, values) == v,
{
}

/// A scalar becomes what the value table holds for it, wherever it stands:
/// two occurrences of one scalar get one replacement.
pub proof fn law_scalar_replaced_by_table(v: JsonView, keys: KeyMap, values: ValueMap)
    requires
        v.is_scalar(),
    ensures
        obfuscated(v, keys, values) == values[v],
{
}

/// Under valid tables that cover it, a number becomes a number of the same
/// sub-kind and a string an alphanumeric string of the same length.
pub proof fn law_scalar_kind_and_size_kept(v: JsonView, keys: KeyMap, values: ValueMap)
    requires
        v.is_scalar(),
        covers(keys, values, v),
        value_replacements_valid(values),
    ensures
        replaces_value(v, obfuscated(v, keys, values)),
{
    assert(scalars_of(v).contains(v));
    assert(values.contains_key(v));
}

/// Under a valid key table, every key name of `v` is replaced by an
/// alphanumeric name of the same length.
pub proof fn law_key_length_kept(v: JsonView, keys: KeyMap, key: Seq<char>)
    requires
        keys_of(v).contains(key),
        keys_of(v).subset_of(keys.dom()),
        string_replacements_valid(keys),
    ensures
        replaces_string(key, keys[key]),
{
    assert(keys.contains_key(key));
}

/// An object built by insertion never has two entries under one key.
pub proof fn law_object_keys_distinct(entries: Entries, n: nat, keys: KeyMap, values: ValueMap)
    requires
        n <= entries.len(),
    ensures
        distinct_keys(obfuscated_entries(entries, n, keys, values)),
    decreases n,
{
    if n > 0 {
        law_object_keys_distinct(entries, (n - 1) as nat, keys, values);
        let before = obfuscated_entries(entries, (n - 1) as nat, keys, values);
        let key = keys[entries[n - 1].0];
        let value = obfuscated(entries[n - 1].1, keys, values);
        lemma_insert_keeps_keys_distinct(before, key, value);
    }
}

/// Insertion keeps the keys of an object distinct.
pub proof fn lemma_insert_keeps_keys_distinct(entries: Entries, key: Seq<char>, value: JsonView)
    requires
        distinct_keys(entries),
    ensures
        distinct_keys(insert_entry(entries, key, value)),
{
    let after = insert_entry(entries, key, value);
    if has_key(entries, key) {
        let place = key_index(entries, key);
        assert forall|i: int, j: int| 0 <= i < j < after.len() implies (#[trigger] after[i]).0 != (
        #[trigger] after[j]).0 by {
            assert(after[i].0 == entries[i].0);
            assert(after[j].0 == entries[j].0);
        }
    } else {
        assert forall|i: int, j: int| 0 <= i < j < after.len() implies (#[trigger] after[i]).0 != (
        #[trigger] after[j]).0 by {
            if j == entries.len() {
                assert(entries[i].0 != key);
            }
        }
    }
}

/// Where no two of the first `n` keys of an object get the same
/// replacement, each of the first `n` entries of the obfuscated object stands
/// where its original stood.
pub proof fn lemma_entries_keep_their_places(entries: Entries, n: nat, keys: KeyMap, values: ValueMap)
    requires
        n <= entries.len(),
        forall|i: int, j: int|
            0 <= i < j < n ==> keys[(#[trigger] entries[i]).0] != keys[(#[trigger] entries[j]).0],
    ensures
        obfuscated_entries(entries, n, keys, values) == replaced_entries(entries, n, keys, values),
    decreases n,
{
    if n == 0 {
        assert(obfuscated_entries(entries, n, keys, values) =~= replaced_entries(
            entries,
            n,
            keys,
            values,
        ));
    } else {
        lemma_entries_keep_their_places(entries, (n - 1) as nat, keys, values);
        let before = replaced_entries(entries, (n - 1) as nat, keys, values);
        let key = keys[entries[n - 1].0];
        if has_key(before, key) {
            let i = key_index(before, key);
            assert(before[i].0 == keys[entries[i].0]);
            assert(keys[entries[i].0] != keys[entries[n - 1].0]);
        }
        assert(obfuscated_entries(entries, n, keys, values) =~= replaced_entries(
            entries,
            n,
            keys,
            values,
        ));
    }
}

/// Shape preservation: under valid tables that cover `v`, and where no two
/// keys of one object collide on their replacement, the obfuscation of `v`
/// has the shape of `v` at every position: the same kinds, the same array
/// lengths, the same entries in every object, the same sub-kind for every
/// number, the same length for every string and every key.
pub proof fn law_shape_preserved(v: JsonView, keys: KeyMap, values: ValueMap)
    requires
        covers(keys, values, v),
        string_replacements_valid(keys),
        value_replacements_valid(values),
        collision_free(v, keys),
    ensures
        shape_of(obfuscated(v, keys, values)) == shape_of(v),
    decreases v,
{
    match v {
        JsonView::Null => {},
        JsonView::Bool(_) => {},
        JsonView::Number(_) => {
            law_scalar_kind_and_size_kept(v, keys, values);
        },
        JsonView::String(_) => {
            law_scalar_kind_and_size_kept(v, keys, values);
        },
        JsonView::Array(items) => {
            let out = obfuscated_items(items, keys, values);
            assert forall|i: int| 0 <= i < items.len() implies shape_of(out[i]) == shape_of(
                items[i],
            ) by {
                lemma_item_within(items, items.len(), i);
                law_shape_preserved(items[i], keys, values);
            }
            assert(shape_of(JsonView::Array(out))->Array_0 =~= shape_of(v)->Array_0);
        },
        JsonView::Object(entries) => {
            lemma_entries_keep_their_places(entries, entries.len(), keys, values);
            let out = obfuscated_entries(entries, entries.len(), keys, values);
            assert forall|i: int| 0 <= i < entries.len() implies out[i].0.len()
                == entries[i].0.len() && shape_of(out[i].1) == shape_of(entries[i].1) by {
                lemma_entry_within(entries, entries.len(), i);
                assert(keys.contains_key(entries[i].0));
                law_shape_preserved(entries[i].1, keys, values);
            }
            assert(shape_of(JsonView::Object(out))->Object_0 =~= shape_of(v)->Object_0);
        },
    }
}

/// The `i`-th child of `v`: an item of an array, or the value of an entry of
/// an object.
pub open spec fn child(v: JsonView, i: int) -> Option<JsonView> {
    match v {
        JsonView::Array(items) => if 0 <= i < items.len() {
            Some(items[i])
        } else {
            None
        },
        JsonView::Object(entries) => if 0 <= i < entries.len() {
            Some(entries[i].1)
        } else {
            None
        },
        _ => None,
    }
}

/// The value that stands in `v` at the position `path`, which gives the
/// child to descend into at each level.
pub open spec fn value_at(v: JsonView, path: Seq<int>) -> Option<JsonView>
    decreases path.len(),
{
    if path.len() == 0 {
        Some(v)
    } else {
        match child(v, path[0]) {
            Some(c) => value_at(c, path.drop_first()),
            None => None,
        }
    }
}

/// The key of the `i`-th entry of the object that stands in `v` at `path`.
pub open spec fn key_at(v: JsonView, path: Seq<int>, i: int) -> Option<Seq<char>> {
    match value_at(v, path) {
        Some(JsonView::Object(entries)) => if 0 <= i < entries.len() {
            Some(entries[i].0)
        } else {
            None
        },
        _ => None,
    }
}

/// The `i`-th entry of an object keeps its place and its value when the
/// object is obfuscated: no two entries up to it collide on their replaced
/// keys, and no later entry takes its replaced key.
pub open spec fn place_kept(entries: Entries, i: int, keys: KeyMap) -> bool {
    &&& 0 <= i < entries.len()
    &&& forall|a: int, b: int|
        0 <= a < b <= i ==> keys[(#[trigger] entries[a]).0] != keys[(#[trigger] entries[b]).0]
    &&& forall|j: int|
        i < j < entries.len() ==> keys[(#[trigger] entries[j]).0] != keys[entries[i].0]
}

/// The position `path` exists in `v`, and every entry on the way to it
/// keeps its place.
pub open spec fn path_kept(v: JsonView, keys: KeyMap, path: Seq<int>) -> bool
    decreases path.len(),
{
    if path.len() == 0 {
        true
    } else {
        match v {
            JsonView::Array(items) => 0 <= path[0] < items.len() && path_kept(
                items[path[0]],
                keys,
                path.drop_first(),
            ),
            JsonView::Object(entries) => place_kept(entries, path[0], keys) && path_kept(
                entries[path[0]].1,
                keys,
                path.drop_first(),
            ),
            _ => false,
        }
    }
}

/// An entry that keeps its place stands, in the object that the first `n`
/// entries give, where it stood, with its key replaced and its value
/// obfuscated.
pub proof fn lemma_place_kept(entries: Entries, n: nat, i: int, keys: KeyMap, values: ValueMap)
    requires
        place_kept(entries, i, keys),
        i < n <= entries.len(),
    ensures
        i < obfuscated_entries(entries, n, keys, values).len(),
        obfuscated_entries(entries, n, keys, values)[i] == (
            keys[entries[i].0],
            obfuscated(entries[i].1, keys, values),
        ),
    decreases n,
{
    if n == i + 1 {
        lemma_entries_keep_their_places(entries, n, keys, values);
    } else {
        lemma_place_kept(entries, (n - 1) as nat, i, keys, values);
        let before = obfuscated_entries(entries, (n - 1) as nat, keys, values);
        let key = keys[entries[n - 1].0];
        if has_key(before, key) {
            assert(before[key_index(before, key)].0 == key);
        }
    }
}

/// What stands at a position of the obfuscation of `v` is the obfuscation
/// of what stands there in `v`, provided that the entries on the way to it
/// keep their places.
pub proof fn law_positions_kept(v: JsonView, keys: KeyMap, values: ValueMap, path: Seq<int>)
    requires
        path_kept(v, keys, path),
    ensures
        value_at(v, path) is Some,
        value_at(obfuscated(v, keys, values), path) == Some(
            obfuscated(value_at(v, path)->0, keys, values),
        ),
    decreases path.len(),
{
    if path.len() > 0 {
        let i = path[0];
        let rest = path.drop_first();
        match v {
            JsonView::Array(items) => {
                law_positions_kept(items[i], keys, values, rest);
            },
            JsonView::Object(entries) => {
                lemma_place_kept(entries, entries.len(), i, keys, values);
                law_positions_kept(entries[i].1, keys, values, rest);
            },
            _ => {},
        }
    }
}

/// The key of an entry of the obfuscation of `v` is the replacement that the
/// key table holds for the key of that entry in `v`, provided that the entry
/// and those on the way to it keep their places.
pub proof fn law_keys_replaced_by_table(
    v: JsonView,
    keys: KeyMap,
    values: ValueMap,
    path: Seq<int>,
    i: int,
)
    requires
        path_kept(v, keys, path),
        value_at(v, path) matches Some(JsonView::Object(entries)) && place_kept(entries, i, keys),
    ensures
        key_at(v, path, i) is Some,
        key_at(obfuscated(v, keys, values), path, i) == Some(keys[key_at(v, path, i)->0]),
{
    law_positions_kept(v, keys, values, path);
    let entries = value_at(v, path)->0->Object_0;
    lemma_place_kept(entries, entries.len(), i, keys, values);
}

/// Consistency of values: two positions that hold the same value in `v`
/// hold the same value in the obfuscation of `v`, provided that the entries
/// on the way to them keep their places. With `v` the array of the documents
/// of a batch, the two positions may lie in different documents.
pub proof fn law_equal_values_get_equal_replacements(
    v: JsonView,
    keys: KeyMap,
    values: ValueMap,
    p: Seq<int>,
    q: Seq<int>,
)
    requires
        path_kept(v, keys, p),
        path_kept(v, keys, q),
        value_at(v, p) == value_at(v, q),
    ensures
        value_at(obfuscated(v, keys, values), p) == value_at(obfuscated(v, keys, values), q),
{
    law_positions_kept(v, keys, values, p);
    law_positions_kept(v, keys, values, q);
}

/// Consistency of keys: two entries that have the same key in `v`, in
/// whatever objects of whatever documents, have the same key in the
/// obfuscation of `v`, provided that they and the entries on the way to them
/// keep their places.
pub proof fn law_equal_keys_get_equal_replacements(
    v: JsonView,
    keys: KeyMap,
    values: ValueMap,
    p: Seq<int>,
    i: int,
    q: Seq<int>,
    j: int,
)
    requires
        path_kept(v, keys, p),
        value_at(v, p) matches Some(JsonView::Object(entries)) && place_kept(entries, i, keys),
        path_kept(v, keys, q),
        value_at(v, q) matches Some(JsonView::Object(entries)) && place_kept(entries, j, keys),
        key_at(v, p, i) == key_at(v, q, j),
    ensures
        key_at(obfuscated(v, keys, values), p, i) == key_at(obfuscated(v, keys, values), q, j),
{
    law_keys_replaced_by_table(v, keys, values, p, i);
    law_keys_replaced_by_table(v, keys, values, q, j);
}

/// Whatever collides, every entry of an obfuscated object is an entry of the
/// original with its key replaced and its value obfuscated, and the replaced
/// key of every original entry is a key of the obfuscated object.
pub proof fn law_object_entries_replaced(entries: Entries, n: nat, keys: KeyMap, values: ValueMap)
    requires
        n <= entries.len(),
    ensures
        forall|j: int|
            0 <= j < obfuscated_entries(entries, n, keys, values).len() ==> exists|i: int|
                0 <= i < n && #[trigger] obfuscated_entries(entries, n, keys, values)[j] == (
                    keys[(#[trigger] entries[i]).0],
                    obfuscated(entries[i].1, keys, values),
                ),
        forall|i: int|
            0 <= i < n ==> has_key(
                obfuscated_entries(entries, n, keys, values),
                keys[(#[trigger] entries[i]).0],
            ),
    decreases n,
{
    if n > 0 {
        law_object_entries_replaced(entries, (n - 1) as nat, keys, values);
        let before = obfuscated_entries(entries, (n - 1) as nat, keys, values);
        let after = obfuscated_entries(entries, n, keys, values);
        let key = keys[entries[n - 1].0];
        let value = obfuscated(entries[n - 1].1, keys, values);
        let place = if has_key(before, key) {
            key_index(before, key)
        } else {
            before.len() as int
        };
        assert(after[place] == (key, value));
        assert forall|j: int| 0 <= j < after.len() implies exists|i: int|
            0 <= i < n && #[trigger] after[j] == (
                keys[(#[trigger] entries[i]).0],
                obfuscated(entries[i].1, keys, values),
            ) by {
            if j == place {
                assert(after[j] == (keys[entries[n - 1].0], obfuscated(entries[n - 1].1, keys, values)));
            } else {
                assert(after[j] == before[j]);
                let i = choose|i: int|
                    0 <= i < n - 1 && #[trigger] before[j] == (
                        keys[(#[trigger] entries[i]).0],
                        obfuscated(entries[i].1, keys, values),
                    );
                assert(after[j] == (keys[entries[i].0], obfuscated(entries[i].1, keys, values)));
            }
        }
        assert forall|i: int| 0 <= i < n implies has_key(after, keys[(#[trigger] entries[i]).0]) by {
            if i == n - 1 {
                assert(after[place].0 == keys[entries[i].0]);
            } else {
                assert(has_key(before, keys[entries[i].0]));
                let j = key_index(before, keys[entries[i].0]);
                assert(after[j].0 == before[j].0);
            }
        }
    }
}

/// Every object in `v`, at any depth, has its entries under distinct keys.
pub open spec fn proper(v: JsonView) -> bool
    decreases v,
{
    match v {
        JsonView::Array(items) => forall|i: int| 0 <= i < items.len() ==> proper(#[trigger] items[i]),
        JsonView::Object(entries) => {
            &&& distinct_keys(entries)
            &&& forall|i: int| 0 <= i < entries.len() ==> proper((#[trigger] entries[i]).1)
        },
        _ => true,
    }
}

/// Under valid tables that cover `v`, the obfuscation of `v` is a proper
/// JSON value, whatever `v` was and whatever collides: none of its objects
/// has two entries under one key.
pub proof fn law_result_is_proper(v: JsonView, keys: KeyMap, values: ValueMap)
    requires
        covers(keys, values, v),
        value_replacements_valid(values),
    ensures
        proper(obfuscated(v, keys, values)),
    decreases v,
{
    match v {
        JsonView::Null => {},
        JsonView::Bool(_) => {},
        JsonView::Number(_) => {
            law_scalar_kind_and_size_kept(v, keys, values);
        },
        JsonView::String(_) => {
            law_scalar_kind_and_size_kept(v, keys, values);
        },
        JsonView::Array(items) => {
            let out = obfuscated_items(items, keys, values);
            assert forall|i: int| 0 <= i < out.len() implies proper(#[trigger] out[i]) by {
                lemma_item_within(items, items.len(), i);
                law_result_is_proper(items[i], keys, values);
            }
        },
        JsonView::Object(entries) => {
            let out = obfuscated_entries(entries, entries.len(), keys, values);
            law_object_keys_distinct(entries, entries.len(), keys, values);
            law_object_entries_replaced(entries, entries.len(), keys, values);
            assert forall|j: int| 0 <= j < out.len() implies proper((#[trigger] out[j]).1) by {
                let i = choose|i: int|
                    0 <= i < entries.len() && #[trigger] out[j] == (
                        keys[(#[trigger] entries[i]).0],
                        obfuscated(entries[i].1, keys, values),
                    );
                lemma_entry_within(entries, entries.len(), i);
                law_result_is_proper(entries[i].1, keys, values);
            }
        },
    }
}

/// Tables that cover `v` already are left as they are when `v` is
/// obfuscated: grown by the key names and scalars of `v`, they are the same
/// tables, and `v` becomes what it became before.
pub proof fn law_covered_value_leaves_tables(
    v: JsonView,
    keys: KeyMap,
    values: ValueMap,
    keys_after: KeyMap,
    values_after: ValueMap,
)
    requires
        covers(keys, values, v),
        extends(keys, keys_after, keys_of(v)),
        extends(values, values_after, scalars_of(v)),
    ensures
        keys_after == keys,
        values_after == values,
{
    assert(keys_after =~= keys);
    assert(values_after =~= values);
}

} // verus!
