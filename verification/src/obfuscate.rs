//! The obfuscation transform.

use crate::json::{
    all_alphanumeric, entries_view, items_view, lemma_array_view, lemma_object_view, Json, Number,
};
use crate::model::{
    distinct_keys, extends, floats_drawn_from, keys_of, keys_of_entries, keys_of_items,
    lemma_item_within, lemma_obfuscated_entries_stable, lemma_obfuscated_stable, obfuscated,
    obfuscated_entries, obfuscated_items, scalars_of, scalars_of_entries, scalars_of_items, KeyMap,
    ValueMap,
};
use crate::object::ObjectBuilder;
use crate::random::random_alphanumeric;
use crate::tables::{replaces_value, KeyTable, ValueTable};
use vstd::prelude::*;
use vstd::string::StrSliceExecFns;

verus! {

/// The obfuscation of `value`.
///
/// Null and booleans pass through. A number or a string that
/// `known_values` holds gets the replacement recorded there; one that it does
/// not hold gets a fresh random replacement, which is recorded. An array is
/// obfuscated item by item, an object entry by entry, with both tables
/// threaded through. So the result is the obfuscation of `value` under the
/// tables as they are afterwards, and the tables have grown by exactly the
/// key names and scalars of `value` that they did not hold.
pub fn obfuscate<F: Fn() -> u64>(
    value: &Json,
    known_keys: &mut KeyTable,
    known_values: &mut ValueTable,
    float_source: &F,
) -> (result: Json)
    requires
        old(known_keys).wf(),
        old(known_values).wf(),
        float_source.requires(()),
    ensures
        final(known_keys).wf(),
        final(known_values).wf(),
        extends(old(known_keys)@, final(known_keys)@, keys_of(value@)),
        extends(old(known_values)@, final(known_values)@, scalars_of(value@)),
        floats_drawn_from(old(known_values)@, final(known_values)@, float_source),
        result@ == obfuscated(value@, final(known_keys)@, final(known_values)@),
        value@ is Null || value@ is Bool ==> result@ == value@ && final(known_keys)@ == old(
            known_keys,
        )@ && final(known_values)@ == old(known_values)@,
        value@.is_scalar() ==> replaces_value(value@, result@),
        value@.is_scalar() && old(known_values)@.contains_key(value@) ==> result@ == old(
            known_values,
        )@[value@],
    decreases value,
{
    if let Some(found) = known_values.get(value) {
        proof {
            assert(known_values@.dom() =~= known_values@.dom().union(scalars_of(value@)));
            assert(known_keys@.dom() =~= known_keys@.dom().union(keys_of(value@)));
        }
        return found;
    }
    match value {
        Json::Null => {
            proof {
                lemma_nothing_added(known_keys@, known_values@);
            }
            Json::Null
        },
        Json::Bool(b) => {
            proof {
                lemma_nothing_added(known_keys@, known_values@);
            }
            Json::Bool(*b)
        },
        Json::Number(number) => {
            let replacement = obfuscate_number(number, float_source);
            known_values.insert_number(*number, replacement);
            proof {
                assert(known_values@.dom() =~= old(known_values)@.dom().union(scalars_of(value@)));
                assert(known_keys@.dom() =~= known_keys@.dom().union(keys_of(value@)));
            }
            Json::Number(replacement)
        },
        Json::String(s) => {
            let replacement = obfuscate_string(s.as_str().unicode_len());
            known_values.insert_string(s.clone(), replacement.clone());
            proof {
                assert(known_values@.dom() =~= old(known_values)@.dom().union(scalars_of(value@)));
                assert(known_keys@.dom() =~= known_keys@.dom().union(keys_of(value@)));
            }
            Json::String(replacement)
        },
        Json::Array(vec) => {
            let items = obfuscate_vec(vec, known_keys, known_values, float_source);
            proof {
                lemma_array_view(*vec);
                lemma_array_view(items);
            }
            Json::Array(items)
        },
        Json::Object(map) => {
            let entries = obfuscate_obj(map, known_keys, known_values, float_source);
            proof {
                lemma_object_view(*map);
                lemma_object_view(entries);
            }
            Json::Object(entries)
        },
    }
}

/// A table that grows by nothing stays as it is.
proof fn lemma_nothing_added(keys: KeyMap, values: ValueMap)
    ensures
        extends(keys, keys, Set::empty()),
        extends(values, values, Set::empty()),
{
    assert(keys.dom() =~= keys.dom().union(Set::empty()));
    assert(values.dom() =~= values.dom().union(Set::empty()));
}

/// A random replacement for `number`, of the same sub-kind.
///
/// An integer is drawn over the whole range of its type. The library holds a
/// float by its bits only, so a fresh float is asked of `float_source`, which
/// hands back the bits of the double that it drew.
pub fn obfuscate_number<F: Fn() -> u64>(number: &Number, float_source: &F) -> (replacement: Number)
    requires
        float_source.requires(()),
    ensures
        replacement.sub_kind() == number.sub_kind(),
        number is Float ==> float_source.ensures((), replacement->Float_0),
{
    match number {
        Number::Unsigned(_) => Number::Unsigned(rand::random::<u64>()),
        Number::Signed(_) => Number::Signed(rand::random::<i64>()),
        Number::Float(_) => Number::Float(float_source()),
    }
}

/// A random string of exactly `n` alphanumeric characters.
pub fn obfuscate_string(n: usize) -> (replacement: String)
    ensures
        replacement@.len() == n,
        all_alphanumeric(replacement@),
{
    let mut replacement = String::new();
    let mut i: usize = 0;
    while i < n
        invariant
            i <= n,
            replacement@.len() == i,
            all_alphanumeric(replacement@),
        decreases n - i,
    {
        let c = random_alphanumeric() as char;
        replacement.push(c);
        i += 1;
    }
    replacement
}

/// The obfuscations of the values of `v`, in their order, with both tables
/// threaded from each value to the next: what one value adds to the tables,
/// the later ones find there.
pub fn obfuscate_vec<F: Fn() -> u64>(
    v: &Vec<Json>,
    known_keys: &mut KeyTable,
    known_values: &mut ValueTable,
    float_source: &F,
) -> (out: Vec<Json>)
    requires
        old(known_keys).wf(),
        old(known_values).wf(),
        float_source.requires(()),
    ensures
        final(known_keys).wf(),
        final(known_values).wf(),
        extends(
            old(known_keys)@,
            final(known_keys)@,
            keys_of_items(items_view(v@), v@.len()),
        ),
        extends(
            old(known_values)@,
            final(known_values)@,
            scalars_of_items(items_view(v@), v@.len()),
        ),
        floats_drawn_from(old(known_values)@, final(known_values)@, float_source),
        items_view(out@) == obfuscated_items(
            items_view(v@),
            final(known_keys)@,
            final(known_values)@,
        ),
        out@.len() == v@.len(),
    decreases v,
{
    let ghost items = items_view(v@);
    let mut out: Vec<Json> = Vec::new();
    let mut i: usize = 0;
    proof {
        assert(known_keys@.dom() =~= known_keys@.dom().union(keys_of_items(items, 0)));
        assert(known_values@.dom() =~= known_values@.dom().union(scalars_of_items(items, 0)));
    }
    while i < v.len()
        invariant
            known_keys.wf(),
            known_values.wf(),
            float_source.requires(()),
            items == items_view(v@),
            i <= v.len(),
            out.len() == i,
            extends(old(known_keys)@, known_keys@, keys_of_items(items, i as nat)),
            extends(old(known_values)@, known_values@, scalars_of_items(items, i as nat)),
            floats_drawn_from(old(known_values)@, known_values@, float_source),
            forall|j: int|
                0 <= j < i ==> (#[trigger] out[j])@ == obfuscated(
                    items[j],
                    known_keys@,
                    known_values@,
                ),
        decreases v.len() - i,
    {
        let ghost keys_before = known_keys@;
        let ghost values_before = known_values@;
        let item = obfuscate(&v[i], known_keys, known_values, float_source);
        proof {
            assert(items[i as int] == v[i as int]@);
            assert forall|j: int| 0 <= j < i implies obfuscated(items[j], keys_before, values_before)
                == obfuscated(items[j], known_keys@, known_values@) by {
                lemma_item_within(items, i as nat, j);
                lemma_obfuscated_stable(
                    items[j],
                    keys_before,
                    values_before,
                    known_keys@,
                    known_values@,
                );
            }
            assert(known_keys@.dom() =~= old(known_keys)@.dom().union(
                keys_of_items(items, (i + 1) as nat),
            ));
            assert(known_values@.dom() =~= old(known_values)@.dom().union(
                scalars_of_items(items, (i + 1) as nat),
            ));
        }
        out.push(item);
        i += 1;
    }
    proof {
        assert(items_view(out@) =~= obfuscated_items(items, known_keys@, known_values@));
    }
    out
}

/// The obfuscation of the entries of an object. Each key gets the
/// replacement that `known_keys` holds for it, or a fresh random one of the
/// same length, which is recorded; its value is obfuscated; and the pair is
/// inserted into the new object. Where two keys get the same replacement,
/// the later entry takes the place of the earlier.
pub fn obfuscate_obj<F: Fn() -> u64>(
    m: &Vec<(String, Json)>,
    known_keys: &mut KeyTable,
    known_values: &mut ValueTable,
    float_source: &F,
) -> (out: Vec<(String, Json)>)
    requires
        old(known_keys).wf(),
        old(known_values).wf(),
        float_source.requires(()),
    ensures
        final(known_keys).wf(),
        final(known_values).wf(),
        extends(
            old(known_keys)@,
            final(known_keys)@,
            keys_of_entries(entries_view(m@), m@.len()),
        ),
        extends(
            old(known_values)@,
            final(known_values)@,
            scalars_of_entries(entries_view(m@), m@.len()),
        ),
        floats_drawn_from(old(known_values)@, final(known_values)@, float_source),
        entries_view(out@) == obfuscated_entries(
            entries_view(m@),
            m@.len(),
            final(known_keys)@,
            final(known_values)@,
        ),
        distinct_keys(entries_view(out@)),
    decreases m,
{
    let ghost entries = entries_view(m@);
    let mut out = ObjectBuilder::new();
    let mut i: usize = 0;
    proof {
        assert(known_keys@.dom() =~= known_keys@.dom().union(keys_of_entries(entries, 0)));
        assert(known_values@.dom() =~= known_values@.dom().union(scalars_of_entries(entries, 0)));
    }
    while i < m.len()
        invariant
            known_keys.wf(),
            known_values.wf(),
            float_source.requires(()),
            out.wf(),
            entries == entries_view(m@),
            i <= m.len(),
            extends(old(known_keys)@, known_keys@, keys_of_entries(entries, i as nat)),
            extends(old(known_values)@, known_values@, scalars_of_entries(entries, i as nat)),
            floats_drawn_from(old(known_values)@, known_values@, float_source),
            out@ == obfuscated_entries(entries, i as nat, known_keys@, known_values@),
        decreases m.len() - i,
    {
        let ghost keys_before = known_keys@;
        let ghost values_before = known_values@;
        let key = &m[i].0;
        let new_key = match known_keys.get(key.as_str()) {
            Some(found) => found,
            None => {
                let fresh = obfuscate_string(key.as_str().unicode_len());
                known_keys.insert(key.clone(), fresh.clone());
                fresh
            },
        };
        let ghost keys_between = known_keys@;
        let new_value = obfuscate(&m[i].1, known_keys, known_values, float_source);
        proof {
            assert(entries[i as int] == (m[i as int].0@, m[i as int].1@));
            assert(keys_between.dom().contains(key@));
            lemma_obfuscated_entries_stable(
                entries,
                i as nat,
                keys_before,
                values_before,
                known_keys@,
                known_values@,
            );
            assert(known_keys@.dom() =~= old(known_keys)@.dom().union(
                keys_of_entries(entries, (i + 1) as nat),
            ));
            assert(known_values@.dom() =~= old(known_values)@.dom().union(
                scalars_of_entries(entries, (i + 1) as nat),
            ));
        }
        out.insert(new_key, new_value);
        i += 1;
    }
    proof {
        out.lemma_keys_distinct();
    }
    out.finish()
}

} // verus!
