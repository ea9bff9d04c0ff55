//! What obfuscation yields, as a mathematical function of the value and of
//! the two tables. The executable transform is proved to compute it.

use crate::json::JsonView;
use vstd::prelude::*;

verus! {

/// A table from original key names to their replacements.
pub type KeyMap = Map<Seq<char>, Seq<char>>;

/// A table from original scalars to their replacements.
pub type ValueMap = Map<JsonView, JsonView>;

/// The entries of an object: key names with their values.
pub type Entries = Seq<(Seq<char>, JsonView)>;

/// Some entry of `entries` has the key `key`.
pub open spec fn has_key(entries: Entries, key: Seq<char>) -> bool {
    exists|i: int| 0 <= i < entries.len() && (#[trigger] entries[i]).0 == key
}

/// The place of an entry with the key `key`, where there is one.
pub open spec fn key_index(entries: Entries, key: Seq<char>) -> int {
    choose|i: int| 0 <= i < entries.len() && (#[trigger] entries[i]).0 == key
}

/// No two entries have the same key.
pub open spec fn distinct_keys(entries: Entries) -> bool {
    forall|i: int, j: int|
        0 <= i < j < entries.len() ==> (#[trigger] entries[i]).0 != (#[trigger] entries[j]).0
}

/// Insertion into an object: a key that is already there keeps its place and
/// gets the new value, a new key goes to the end.
pub open spec fn insert_entry(entries: Entries, key: Seq<char>, value: JsonView) -> Entries {
    if has_key(entries, key) {
        entries.update(key_index(entries, key), (key, value))
    } else {
        entries.push((key, value))
    }
}

/// The obfuscation of `v` under the tables `keys` and `values`.
///
/// Null and booleans stay. A number or a string becomes what `values` holds
/// for it. An array is obfuscated item by item. An object is built by
/// inserting, in the order of the entries of `v`, each replaced key with the
/// obfuscation of its value.
pub open spec fn obfuscated(v: JsonView, keys: KeyMap, values: ValueMap) -> JsonView
    decreases v, 0nat,
{
    match v {
        JsonView::Null => v,
        JsonView::Bool(_) => v,
        JsonView::Number(_) => values[v],
        JsonView::String(_) => values[v],
        JsonView::Array(items) => JsonView::Array(obfuscated_items(items, keys, values)),
        JsonView::Object(entries) => JsonView::Object(
            obfuscated_entries(entries, entries.len(), keys, values),
        ),
    }
}

/// The obfuscations of `items`, in their order.
pub open spec fn obfuscated_items(items: Seq<JsonView>, keys: KeyMap, values: ValueMap) -> Seq<
    JsonView,
>
    decreases items, 0nat,
{
    Seq::new(
        items.len(),
        |i: int|
            if 0 <= i < items.len() {
                obfuscated(items[i], keys, values)
            } else {
                JsonView::Null
            },
    )
}

/// The object that the first `n` entries of `entries` give.
pub open spec fn obfuscated_entries(entries: Entries, n: nat, keys: KeyMap, values: ValueMap) -> Entries
    decreases entries, n,
{
    if n == 0 || n > entries.len() {
        Seq::empty()
    } else {
        insert_entry(
            obfuscated_entries(entries, (n - 1) as nat, keys, values),
            keys[entries[n - 1].0],
            obfuscated(entries[n - 1].1, keys, values),
        )
    }
}

/// The key names that occur in `v`, at any depth.
pub open spec fn keys_of(v: JsonView) -> Set<Seq<char>>
    decreases v, 0nat,
{
    match v {
        JsonView::Array(items) => keys_of_items(items, items.len()),
        JsonView::Object(entries) => keys_of_entries(entries, entries.len()),
        _ => Set::empty(),
    }
}

/// The key names that occur in the first `n` of `items`.
pub open spec fn keys_of_items(items: Seq<JsonView>, n: nat) -> Set<Seq<char>>
    decreases items, n,
{
    if n == 0 || n > items.len() {
        Set::empty()
    } else {
        keys_of_items(items, (n - 1) as nat).union(keys_of(items[n - 1]))
    }
}

/// The key names that occur in the first `n` of `entries`: their own keys
/// and those in their values.
pub open spec fn keys_of_entries(entries: Entries, n: nat) -> Set<Seq<char>>
    decreases entries, n,
{
    if n == 0 || n > entries.len() {
        Set::empty()
    } else {
        keys_of_entries(entries, (n - 1) as nat).insert(entries[n - 1].0).union(
            keys_of(entries[n - 1].1),
        )
    }
}

/// The scalars, numbers and strings, that occur in `v`, at any depth.
pub open spec fn scalars_of(v: JsonView) -> Set<JsonView>
    decreases v, 0nat,
{
    match v {
        JsonView::Null => Set::empty(),
        JsonView::Bool(_) => Set::empty(),
        JsonView::Number(_) => Set::empty().insert(v),
        JsonView::String(_) => Set::empty().insert(v),
        JsonView::Array(items) => scalars_of_items(items, items.len()),
        JsonView::Object(entries) => scalars_of_entries(entries, entries.len()),
    }
}

/// The scalars that occur in the first `n` of `items`.
pub open spec fn scalars_of_items(items: Seq<JsonView>, n: nat) -> Set<JsonView>
    decreases items, n,
{
    if n == 0 || n > items.len() {
        Set::empty()
    } else {
        scalars_of_items(items, (n - 1) as nat).union(scalars_of(items[n - 1]))
    }
}

/// The scalars that occur in the values of the first `n` of `entries`.
pub open spec fn scalars_of_entries(entries: Entries, n: nat) -> Set<JsonView>
    decreases entries, n,
{
    if n == 0 || n > entries.len() {
        Set::empty()
    } else {
        scalars_of_entries(entries, (n - 1) as nat).union(scalars_of(entries[n - 1].1))
    }
}

/// The tables hold a replacement for every key name and every scalar of `v`.
pub open spec fn covers(keys: KeyMap, values: ValueMap, v: JsonView) -> bool {
    keys_of(v).subset_of(keys.dom()) && scalars_of(v).subset_of(values.dom())
}

/// Every entry of `before` is an entry of `after`.
pub open spec fn keeps<K, V>(before: Map<K, V>, after: Map<K, V>) -> bool {
    forall|k: K| #[trigger] before.dom().contains(k) ==> after.dom().contains(k) && after[k] == before[k]
}

/// `after` is `before` with entries added for exactly the originals in
/// `added` that it did not hold yet; what it held stays as it was.
pub open spec fn extends<K, V>(before: Map<K, V>, after: Map<K, V>, added: Set<K>) -> bool {
    keeps(before, after) && after.dom() == before.dom().union(added)
}

/// Every float that `after` holds and `before` did not hold has for its
/// replacement a float that `float_source` handed back.
pub open spec fn floats_drawn_from<F: Fn() -> u64>(
    before: ValueMap,
    after: ValueMap,
    float_source: &F,
) -> bool {
    forall|original: JsonView| #[trigger]
        after.dom().contains(original) && !before.dom().contains(original) && is_float(original)
            ==> is_float(after[original]) && float_source.ensures((), float_bits(after[original]))
}

/// `v` is a number of the float sub-kind.
pub open spec fn is_float(v: JsonView) -> bool {
    v is Number && v->Number_0 is Float
}

/// The bits of the float `v`.
pub open spec fn float_bits(v: JsonView) -> u64
    recommends
        is_float(v),
{
    v->Number_0->Float_0
}

/// What occurs in one of the first `n` items occurs in the first `n` items.
pub proof fn lemma_item_within(items: Seq<JsonView>, n: nat, i: int)
    requires
        0 <= i < n <= items.len(),
    ensures
        keys_of(items[i]).subset_of(keys_of_items(items, n)),
        scalars_of(items[i]).subset_of(scalars_of_items(items, n)),
    decreases n,
{
    if i < n - 1 {
        lemma_item_within(items, (n - 1) as nat, i);
    }
}

/// What occurs in one of the first `n` entries occurs in the first `n`
/// entries.
pub proof fn lemma_entry_within(entries: Entries, n: nat, i: int)
    requires
        0 <= i < n <= entries.len(),
    ensures
        keys_of_entries(entries, n).contains(entries[i].0),
        keys_of(entries[i].1).subset_of(keys_of_entries(entries, n)),
        scalars_of(entries[i].1).subset_of(scalars_of_entries(entries, n)),
    decreases n,
{
    if i < n - 1 {
        lemma_entry_within(entries, (n - 1) as nat, i);
    }
}

/// Obfuscation reads the tables only where the value has a key name or a
/// scalar: tables that cover `v` can grow without changing what `v` becomes.
pub proof fn lemma_obfuscated_stable(
    v: JsonView,
    keys: KeyMap,
    values: ValueMap,
    more_keys: KeyMap,
    more_values: ValueMap,
)
    requires
        covers(keys, values, v),
        keeps(keys, more_keys),
        keeps(values, more_values),
    ensures
        obfuscated(v, keys, values) == obfuscated(v, more_keys, more_values),
    decreases v, 0nat,
{
    match v {
        JsonView::Null => {},
        JsonView::Bool(_) => {},
        JsonView::Number(_) => {
            assert(scalars_of(v).contains(v));
        },
        JsonView::String(_) => {
            assert(scalars_of(v).contains(v));
        },
        JsonView::Array(items) => {
            assert forall|i: int| 0 <= i < items.len() implies obfuscated(items[i], keys, values)
                == obfuscated(items[i], more_keys, more_values) by {
                lemma_item_within(items, items.len(), i);
                lemma_obfuscated_stable(items[i], keys, values, more_keys, more_values);
            }
            assert(obfuscated_items(items, keys, values) =~= obfuscated_items(
                items,
                more_keys,
                more_values,
            ));
        },
        JsonView::Object(entries) => {
            lemma_obfuscated_entries_stable(
                entries,
                entries.len(),
                keys,
                values,
                more_keys,
                more_values,
            );
        },
    }
}

/// The same for the object that a prefix of the entries gives.
pub proof fn lemma_obfuscated_entries_stable(
    entries: Entries,
    n: nat,
    keys: KeyMap,
    values: ValueMap,
    more_keys: KeyMap,
    more_values: ValueMap,
)
    requires
        n <= entries.len(),
        keys_of_entries(entries, n).subset_of(keys.dom()),
        scalars_of_entries(entries, n).subset_of(values.dom()),
        keeps(keys, more_keys),
        keeps(values, more_values),
    ensures
        obfuscated_entries(entries, n, keys, values) == obfuscated_entries(
            entries,
            n,
            more_keys,
            more_values,
        ),
    decreases entries, n,
{
    if n > 0 {
        lemma_entry_within(entries, n, n - 1);
        lemma_obfuscated_entries_stable(
            entries,
            (n - 1) as nat,
            keys,
            values,
            more_keys,
            more_values,
        );
        lemma_obfuscated_stable(entries[n - 1].1, keys, values, more_keys, more_values);
    }
}

} // verus!
