//! Building an object entry by entry.

use crate::json::{entries_view, Json};
use crate::model::{distinct_keys, has_key, insert_entry, key_index, Entries};
use vstd::hash_map::StringHashMap;
use vstd::prelude::*;

verus! {

/// An object under construction: its entries in the order of insertion, and
/// for each key the place of its entry.
pub struct ObjectBuilder {
    entries: Vec<(String, Json)>,
    places: StringHashMap<usize>,
}

impl View for ObjectBuilder {
    type V = Entries;

    closed spec fn view(&self) -> Entries {
        entries_view(self.entries@)
    }
}

impl ObjectBuilder {
    /// `places` finds every entry by its key, and nothing else.
    pub closed spec fn wf(&self) -> bool {
        &&& forall|i: int|
            0 <= i < self.entries.len() ==> self.places@.contains_key(
                (#[trigger] self.entries[i]).0@,
            ) && self.places@[self.entries[i].0@] == i
        &&& forall|k: Seq<char>| #[trigger]
            self.places@.contains_key(k) ==> self.places@[k] < self.entries.len()
                && self.entries[self.places@[k] as int].0@ == k
    }

    /// No two entries of the object have the same key.
    pub proof fn lemma_keys_distinct(&self)
        requires
            self.wf(),
        ensures
            distinct_keys(self@),
    {
        assert forall|i: int, j: int| 0 <= i < j < self@.len() implies (#[trigger] self@[i]).0 != (
        #[trigger] self@[j]).0 by {
            assert(self.places@[self.entries[i].0@] == i);
            assert(self.places@[self.entries[j].0@] == j);
        }
    }

    /// An object without entries.
    pub fn new() -> (builder: Self)
        ensures
            builder.wf(),
            builder@ == Entries::empty(),
    {
        let builder = ObjectBuilder { entries: Vec::new(), places: StringHashMap::new() };
        assert(builder@ =~= Entries::empty());
        builder
    }

    /// Inserts `value` under `key`. Where the object has an entry under that
    /// key already, the entry keeps its place and gets the new value.
    pub fn insert(&mut self, key: String, value: Json)
        requires
            old(self).wf(),
        ensures
            final(self).wf(),
            final(self)@ == insert_entry(old(self)@, key@, value@),
    {
        let ghost before = *self;
        match self.places.get(key.as_str()) {
            Some(place) => {
                let place = *place;
                proof {
                    assert(before@[place as int].0 == key@);
                    assert(has_key(before@, key@));
                    let chosen = key_index(before@, key@);
                    assert(before.entries[chosen].0@ == key@);
                }
                self.entries.set(place, (key, value));
                proof {
                    assert(self@ =~= before@.update(place as int, (key@, value@)));
                    assert forall|i: int| 0 <= i < self.entries.len() implies self.places@.contains_key(
                        (#[trigger] self.entries[i]).0@,
                    ) && self.places@[self.entries[i].0@] == i by {
                        assert(before.entries[i].0@ == self.entries[i].0@);
                    }
                    assert forall|k: Seq<char>| #[trigger]
                        self.places@.contains_key(k) implies self.places@[k] < self.entries.len()
                        && self.entries[self.places@[k] as int].0@ == k by {
                        assert(before.entries[before.places@[k] as int].0@ == k);
                    }
                }
            },
            None => {
                proof {
                    if has_key(before@, key@) {
                        let i = key_index(before@, key@);
                        assert(before.entries[i].0@ == key@);
                    }
                }
                let place = self.entries.len();
                self.places.insert(key.clone(), place);
                self.entries.push((key, value));
                proof {
                    assert(self@ =~= before@.push((key@, value@)));
                    assert forall|i: int| 0 <= i < self.entries.len() implies self.places@.contains_key(
                        (#[trigger] self.entries[i]).0@,
                    ) && self.places@[self.entries[i].0@] == i by {
                        if i < place {
                            assert(before.entries[i].0@ == self.entries[i].0@);
                        }
                    }
                    assert forall|k: Seq<char>| #[trigger]
                        self.places@.contains_key(k) implies self.places@[k] < self.entries.len()
                        && self.entries[self.places@[k] as int].0@ == k by {
                        if k != key@ {
                            assert(before.entries[before.places@[k] as int].0@ == k);
                        }
                    }
                }
            },
        }
    }

    /// The entries of the finished object.
    pub fn finish(self) -> (entries: Vec<(String, Json)>)
        ensures
            entries_view(entries@) == self@,
    {
        self.entries
    }
}

} // verus!
