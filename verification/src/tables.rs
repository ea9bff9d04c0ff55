//! The two tables that make obfuscation consistent: one for key names and
//! strings, one for scalar values.

use crate::json::{replaces_string, Json, JsonView, Number};
use std::collections::HashMap;
use vstd::hash_map::StringHashMap;
use vstd::prelude::*;

verus! {

/// A table from original strings to their replacements.
///
/// Every replacement has as many characters as its original, all of them
/// alphanumeric. Beside the map the table keeps a list of its originals, so
/// that its entries can be listed.
pub struct StringTable {
    map: StringHashMap<String>,
    order: Vec<String>,
}

/// The table of the key names seen so far.
pub type KeyTable = StringTable;

/// What holds of every entry of a string table: the replacement has the
/// length of the original and is alphanumeric.
pub open spec fn string_replacements_valid(table: Map<Seq<char>, Seq<char>>) -> bool {
    forall|original: Seq<char>| #[trigger]
        table.contains_key(original) ==> replaces_string(original, table[original])
}

impl View for StringTable {
    type V = Map<Seq<char>, Seq<char>>;

    closed spec fn view(&self) -> Map<Seq<char>, Seq<char>> {
        Map::new(|k: Seq<char>| self.map@.contains_key(k), |k: Seq<char>| self.map@[k]@)
    }
}

impl StringTable {
    /// The originals are listed once each, and they are the keys of the map.
    pub closed spec fn listed(&self) -> bool {
        &&& forall|i: int| 0 <= i < self.order.len() ==> self.map@.contains_key(#[trigger] self.order[i]@)
        &&& forall|k: Seq<char>| #[trigger]
            self.map@.contains_key(k) ==> exists|i: int|
                0 <= i < self.order.len() && #[trigger] self.order[i]@ == k
        &&& forall|i: int, j: int|
            0 <= i < j < self.order.len() ==> #[trigger] self.order[i]@ != #[trigger] self.order[j]@
    }

    /// The table is in order within, and every replacement that it holds is
    /// valid.
    pub open spec fn wf(&self) -> bool {
        self.listed() && string_replacements_valid(self@)
    }

    /// An empty table.
    pub fn new() -> (table: Self)
        ensures
            table.wf(),
            table@ == Map::<Seq<char>, Seq<char>>::empty(),
    {
        let table = StringTable { map: StringHashMap::new(), order: Vec::new() };
        assert(table@ =~= Map::<Seq<char>, Seq<char>>::empty());
        table
    }

    /// The replacement recorded for `original`, if there is one.
    pub fn get(&self, original: &str) -> (found: Option<String>)
        ensures
            match found {
                Some(replacement) => self@.contains_key(original@) && replacement@
                    == self@[original@],
                None => !self@.contains_key(original@),
            },
    {
        match self.map.get(original) {
            Some(replacement) => Some(replacement.clone()),
            None => None,
        }
    }

    /// Records `replacement` for `original`, which has none yet.
    pub(crate) fn insert(&mut self, original: String, replacement: String)
        requires
            old(self).wf(),
            !old(self)@.contains_key(original@),
            replaces_string(original@, replacement@),
        ensures
            final(self).wf(),
            final(self)@ == old(self)@.insert(original@, replacement@),
    {
        let ghost before = *self;
        self.map.insert(original.clone(), replacement);
        self.order.push(original);
        proof {
            let n = before.order.len() as int;
            assert(self@ =~= before@.insert(original@, replacement@));
            assert forall|k: Seq<char>| #[trigger] self.map@.contains_key(k) implies exists|i: int|
                0 <= i < self.order.len() && #[trigger] self.order[i]@ == k by {
                if k == original@ {
                    assert(self.order[n]@ == k);
                } else {
                    let i = choose|i: int| 0 <= i < before.order.len() && #[trigger] before.order[i]@ == k;
                    assert(self.order[i]@ == k);
                }
            }
            assert forall|i: int| 0 <= i < self.order.len() implies self.map@.contains_key(
                #[trigger] self.order[i]@,
            ) by {
                if i < n {
                    assert(before.map@.contains_key(before.order[i]@));
                }
            }
            assert forall|i: int, j: int| 0 <= i < j < self.order.len() implies #[trigger] self.order[i]@
                != #[trigger] self.order[j]@ by {
                if j == n {
                    assert(before.map@.contains_key(before.order[i]@));
                }
            }
        }
    }

    /// The entries of the table: each original once, with its replacement.
    pub fn entries(&self) -> (list: Vec<(String, String)>)
        requires
            self.wf(),
        ensures
            forall|i: int|
                0 <= i < list.len() ==> self@.contains_pair(
                    (#[trigger] list[i]).0@,
                    list[i].1@,
                ),
            forall|original: Seq<char>| #[trigger]
                self@.contains_key(original) ==> exists|i: int|
                    0 <= i < list.len() && (#[trigger] list[i]).0@ == original,
            forall|i: int, j: int|
                0 <= i < j < list.len() ==> (#[trigger] list[i]).0@ != (#[trigger] list[j]).0@,
    {
        let mut list: Vec<(String, String)> = Vec::new();
        let mut i: usize = 0;
        while i < self.order.len()
            invariant
                self.wf(),
                i <= self.order.len(),
                list.len() == i,
                forall|j: int|
                    0 <= j < i ==> (#[trigger] list[j]).0@ == self.order[j]@ && list[j].1@
                        == self@[self.order[j]@],
            decreases self.order.len() - i,
        {
            let original = &self.order[i];
            assert(self.map@.contains_key(self.order[i as int]@));
            let replacement = match self.map.get(original.as_str()) {
                Some(replacement) => replacement.clone(),
                None => unreached(),
            };
            list.push((original.clone(), replacement));
            i += 1;
        }
        proof {
            assert forall|original: Seq<char>| #[trigger] self@.contains_key(original) implies exists|
                i: int,
            |
                0 <= i < list.len() && (#[trigger] list[i]).0@ == original by {
                let i = choose|i: int| 0 <= i < self.order.len() && #[trigger] self.order[i]@ == original;
                assert(list[i].0@ == original);
            }
        }
        list
    }
}

/// What holds of every entry of a number table: the replacement has the
/// sub-kind of the original.
pub open spec fn number_replacements_valid(table: Map<Number, Number>) -> bool {
    forall|original: Number| #[trigger]
        table.contains_key(original) ==> table[original].sub_kind() == original.sub_kind()
}

/// A table from original numbers to their replacements, which are of the
/// same sub-kind. Beside the maps, one for each sub-kind, the table keeps a
/// list of its originals, so that its entries can be listed.
pub struct NumberTable {
    unsigned: HashMap<u64, Number>,
    signed: HashMap<i64, Number>,
    floats: HashMap<u64, Number>,
    order: Vec<Number>,
}

impl View for NumberTable {
    type V = Map<Number, Number>;

    closed spec fn view(&self) -> Map<Number, Number> {
        Map::new(
            |n: Number|
                match n {
                    Number::Unsigned(v) => self.unsigned@.contains_key(v),
                    Number::Signed(v) => self.signed@.contains_key(v),
                    Number::Float(bits) => self.floats@.contains_key(bits),
                },
            |n: Number|
                match n {
                    Number::Unsigned(v) => self.unsigned@[v],
                    Number::Signed(v) => self.signed@[v],
                    Number::Float(bits) => self.floats@[bits],
                },
        )
    }
}

impl NumberTable {
    /// The originals are listed once each, and they are the keys of the maps.
    pub closed spec fn listed(&self) -> bool {
        &&& forall|i: int| 0 <= i < self.order.len() ==> self@.contains_key(#[trigger] self.order[i])
        &&& forall|n: Number| #[trigger]
            self@.contains_key(n) ==> exists|i: int|
                0 <= i < self.order.len() && #[trigger] self.order[i] == n
        &&& forall|i: int, j: int|
            0 <= i < j < self.order.len() ==> #[trigger] self.order[i] != #[trigger] self.order[j]
    }

    /// The table is in order within, and every replacement that it holds is
    /// valid.
    pub open spec fn wf(&self) -> bool {
        self.listed() && number_replacements_valid(self@)
    }

    /// An empty table.
    pub fn new() -> (table: Self)
        ensures
            table.wf(),
            table@ == Map::<Number, Number>::empty(),
    {
        let table = NumberTable {
            unsigned: HashMap::new(),
            signed: HashMap::new(),
            floats: HashMap::new(),
            order: Vec::new(),
        };
        assert(table@ =~= Map::<Number, Number>::empty());
        table
    }

    /// The replacement recorded for `original`, if there is one.
    pub fn get(&self, original: &Number) -> (found: Option<Number>)
        ensures
            match found {
                Some(replacement) => self@.contains_key(*original) && replacement
                    == self@[*original],
                None => !self@.contains_key(*original),
            },
    {
        let found = match original {
            Number::Unsigned(v) => self.unsigned.get(v),
            Number::Signed(v) => self.signed.get(v),
            Number::Float(bits) => self.floats.get(bits),
        };
        match found {
            Some(replacement) => Some(*replacement),
            None => None,
        }
    }

    /// Records `replacement` for `original`, which has none yet.
    pub(crate) fn insert(&mut self, original: Number, replacement: Number)
        requires
            old(self).wf(),
            !old(self)@.contains_key(original),
            replacement.sub_kind() == original.sub_kind(),
        ensures
            final(self).wf(),
            final(self)@ == old(self)@.insert(original, replacement),
    {
        let ghost before = *self;
        match original {
            Number::Unsigned(v) => {
                self.unsigned.insert(v, replacement);
            },
            Number::Signed(v) => {
                self.signed.insert(v, replacement);
            },
            Number::Float(bits) => {
                self.floats.insert(bits, replacement);
            },
        }
        self.order.push(original);
        proof {
            let n = before.order.len() as int;
            assert(self@ =~= before@.insert(original, replacement));
            assert forall|k: Number| #[trigger] self@.contains_key(k) implies exists|i: int|
                0 <= i < self.order.len() && #[trigger] self.order[i] == k by {
                if k == original {
                    assert(self.order[n] == k);
                } else {
                    assert(before@.contains_key(k));
                    let i = choose|i: int| 0 <= i < before.order.len() && #[trigger] before.order[i] == k;
                    assert(self.order[i] == k);
                }
            }
            assert forall|i: int| 0 <= i < self.order.len() implies self@.contains_key(
                #[trigger] self.order[i],
            ) by {
                if i < n {
                    assert(before@.contains_key(before.order[i]));
                }
            }
            assert forall|i: int, j: int| 0 <= i < j < self.order.len() implies #[trigger] self.order[i]
                != #[trigger] self.order[j] by {
                if j == n {
                    assert(before@.contains_key(before.order[i]));
                }
            }
        }
    }

    /// The entries of the table: each original once, with its replacement.
    pub fn entries(&self) -> (list: Vec<(Number, Number)>)
        requires
            self.wf(),
        ensures
            forall|i: int|
                0 <= i < list.len() ==> self@.contains_pair((#[trigger] list[i]).0, list[i].1),
            forall|original: Number| #[trigger]
                self@.contains_key(original) ==> exists|i: int|
                    0 <= i < list.len() && (#[trigger] list[i]).0 == original,
            forall|i: int, j: int|
                0 <= i < j < list.len() ==> (#[trigger] list[i]).0 != (#[trigger] list[j]).0,
    {
        let mut list: Vec<(Number, Number)> = Vec::new();
        let mut i: usize = 0;
        while i < self.order.len()
            invariant
                self.wf(),
                i <= self.order.len(),
                list.len() == i,
                forall|j: int|
                    0 <= j < i ==> (#[trigger] list[j]).0 == self.order[j] && list[j].1
                        == self@[self.order[j]],
            decreases self.order.len() - i,
        {
            let original = self.order[i];
            assert(self@.contains_key(self.order[i as int]));
            let replacement = match self.get(&original) {
                Some(replacement) => replacement,
                None => unreached(),
            };
            list.push((original, replacement));
            i += 1;
        }
        proof {
            assert forall|original: Number| #[trigger] self@.contains_key(original) implies exists|
                i: int,
            |
                0 <= i < list.len() && (#[trigger] list[i]).0 == original by {
                let i = choose|i: int| 0 <= i < self.order.len() && #[trigger] self.order[i] == original;
                assert(list[i].0 == original);
            }
        }
        list
    }
}

/// What a replacement owes the scalar that it stands for: a number is
/// replaced by a number of the same sub-kind, a string by an alphanumeric
/// string of the same length. Nothing replaces a value that is no scalar.
pub open spec fn replaces_value(original: JsonView, replacement: JsonView) -> bool {
    match original {
        JsonView::Number(n) => replacement matches JsonView::Number(r) && r.sub_kind()
            == n.sub_kind(),
        JsonView::String(s) => replacement matches JsonView::String(t) && replaces_string(s, t),
        _ => false,
    }
}

/// What holds of every entry of a value table.
pub open spec fn value_replacements_valid(table: Map<JsonView, JsonView>) -> bool {
    forall|original: JsonView| #[trigger]
        table.contains_key(original) ==> replaces_value(original, table[original])
}

/// The table of scalars that a table of numbers and a table of strings make
/// together.
pub open spec fn scalar_map(
    numbers: Map<Number, Number>,
    strings: Map<Seq<char>, Seq<char>>,
) -> Map<JsonView, JsonView> {
    Map::new(
        |original: JsonView|
            match original {
                JsonView::Number(n) => numbers.contains_key(n),
                JsonView::String(s) => strings.contains_key(s),
                _ => false,
            },
        |original: JsonView|
            match original {
                JsonView::Number(n) => JsonView::Number(numbers[n]),
                JsonView::String(s) => JsonView::String(strings[s]),
                _ => JsonView::Null,
            },
    )
}

/// The table of the scalar values seen so far, each with its replacement.
/// Arrays, objects, booleans and null never enter it.
pub struct ValueTable {
    numbers: NumberTable,
    strings: StringTable,
}

impl View for ValueTable {
    type V = Map<JsonView, JsonView>;

    closed spec fn view(&self) -> Map<JsonView, JsonView> {
        scalar_map(self.numbers@, self.strings@)
    }
}

impl ValueTable {
    /// Both parts of the table are in order within.
    pub closed spec fn listed(&self) -> bool {
        self.numbers.wf() && self.strings.wf()
    }

    /// The table is in order within, and it holds scalars only, each with a
    /// valid replacement.
    pub open spec fn wf(&self) -> bool {
        self.listed() && value_replacements_valid(self@)
    }

    /// An empty table.
    pub fn new() -> (table: Self)
        ensures
            table.wf(),
            table@ == Map::<JsonView, JsonView>::empty(),
    {
        let table = ValueTable { numbers: NumberTable::new(), strings: StringTable::new() };
        assert(table@ =~= Map::<JsonView, JsonView>::empty());
        table
    }

    /// The replacement recorded for `original`, if there is one. There is
    /// none for a value that is no scalar.
    pub fn get(&self, original: &Json) -> (found: Option<Json>)
        ensures
            match found {
                Some(replacement) => self@.contains_key(original@) && replacement@
                    == self@[original@],
                None => !self@.contains_key(original@),
            },
    {
        match original {
            Json::Number(n) => match self.numbers.get(n) {
                Some(replacement) => Some(Json::Number(replacement)),
                None => None,
            },
            Json::String(s) => match self.strings.get(s.as_str()) {
                Some(replacement) => Some(Json::String(replacement)),
                None => None,
            },
            _ => None,
        }
    }

    /// Records `replacement` for the number `original`, which has none yet.
    pub(crate) fn insert_number(&mut self, original: Number, replacement: Number)
        requires
            old(self).wf(),
            !old(self)@.contains_key(JsonView::Number(original)),
            replacement.sub_kind() == original.sub_kind(),
        ensures
            final(self).wf(),
            final(self)@ == old(self)@.insert(
                JsonView::Number(original),
                JsonView::Number(replacement),
            ),
    {
        self.numbers.insert(original, replacement);
        assert(self@ =~= old(self)@.insert(
            JsonView::Number(original),
            JsonView::Number(replacement),
        ));
    }

    /// Records `replacement` for the string `original`, which has none yet.
    pub(crate) fn insert_string(&mut self, original: String, replacement: String)
        requires
            old(self).wf(),
            !old(self)@.contains_key(JsonView::String(original@)),
            replaces_string(original@, replacement@),
        ensures
            final(self).wf(),
            final(self)@ == old(self)@.insert(
                JsonView::String(original@),
                JsonView::String(replacement@),
            ),
    {
        self.strings.insert(original, replacement);
        assert(self@ =~= old(self)@.insert(
            JsonView::String(original@),
            JsonView::String(replacement@),
        ));
    }

    /// The entries of the table: each original once, with its replacement.
    pub fn entries(&self) -> (list: Vec<(Json, Json)>)
        requires
            self.wf(),
        ensures
            forall|i: int|
                0 <= i < list.len() ==> self@.contains_pair(
                    (#[trigger] list[i]).0@,
                    list[i].1@,
                ),
            forall|original: JsonView| #[trigger]
                self@.contains_key(original) ==> exists|i: int|
                    0 <= i < list.len() && (#[trigger] list[i]).0@ == original,
            forall|i: int, j: int|
                0 <= i < j < list.len() ==> (#[trigger] list[i]).0@ != (#[trigger] list[j]).0@,
    {
        let numbers = self.numbers.entries();
        let strings = self.strings.entries();
        let mut list: Vec<(Json, Json)> = Vec::new();
        let mut i: usize = 0;
        while i < numbers.len()
            invariant
                i <= numbers.len(),
                list.len() == i,
                forall|j: int|
                    0 <= j < i ==> (#[trigger] list[j]).0@ == JsonView::Number(numbers[j].0)
                        && list[j].1@ == JsonView::Number(numbers[j].1),
            decreases numbers.len() - i,
        {
            list.push((Json::Number(numbers[i].0), Json::Number(numbers[i].1)));
            i += 1;
        }
        let mut k: usize = 0;
        while k < strings.len()
            invariant
                k <= strings.len(),
                list.len() == numbers.len() + k,
                forall|j: int|
                    0 <= j < numbers.len() ==> (#[trigger] list[j]).0@ == JsonView::Number(
                        numbers[j].0,
                    ) && list[j].1@ == JsonView::Number(numbers[j].1),
                forall|j: int|
                    0 <= j < k ==> (#[trigger] list[numbers.len() + j]).0@ == JsonView::String(
                        strings[j].0@,
                    ) && list[numbers.len() + j].1@ == JsonView::String(strings[j].1@),
            decreases strings.len() - k,
        {
            list.push((Json::String(strings[k].0.clone()), Json::String(strings[k].1.clone())));
            k += 1;
        }
        proof {
            let n = numbers.len() as int;
            assert forall|i: int| 0 <= i < list.len() implies self@.contains_pair(
                (#[trigger] list[i]).0@,
                list[i].1@,
            ) by {
                if i < n {
                    assert(self.numbers@.contains_pair(numbers[i].0, numbers[i].1));
                } else {
                    assert(list[n + (i - n)].0@ == JsonView::String(strings[i - n].0@));
                    assert(self.strings@.contains_pair(strings[i - n].0@, strings[i - n].1@));
                }
            }
            assert forall|original: JsonView| #[trigger] self@.contains_key(original) implies exists|
                i: int,
            |
                0 <= i < list.len() && (#[trigger] list[i]).0@ == original by {
                match original {
                    JsonView::Number(x) => {
                        let i = choose|i: int| 0 <= i < numbers.len() && (#[trigger] numbers[i]).0 == x;
                        assert(list[i].0@ == original);
                    },
                    JsonView::String(s) => {
                        let j = choose|j: int| 0 <= j < strings.len() && (#[trigger] strings[j]).0@ == s;
                        assert(list[n + j].0@ == original);
                    },
                    _ => {},
                }
            }
            assert forall|i: int, j: int| 0 <= i < j < list.len() implies (#[trigger] list[i]).0@ != (
            #[trigger] list[j]).0@ by {
                if j < n {
                    assert(numbers[i].0 != numbers[j].0);
                } else if i >= n {
                    assert(list[n + (i - n)].0@ == JsonView::String(strings[i - n].0@));
                    assert(list[n + (j - n)].0@ == JsonView::String(strings[j - n].0@));
                    assert(strings[i - n].0@ != strings[j - n].0@);
                } else {
                    assert(list[n + (j - n)].0@ == JsonView::String(strings[j - n].0@));
                }
            }
        }
        list
    }
}

} // verus!
