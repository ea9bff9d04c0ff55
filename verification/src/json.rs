//! The JSON data model and its mathematical view.

use vstd::prelude::*;

verus! {

/// The three sub-kinds of a JSON number.
#[derive(Clone, Copy, Debug, PartialEq, Eq, Structural)]
pub enum NumberKind {
    Unsigned,
    Signed,
    Float,
}

/// A JSON number, tagged with its sub-kind.
///
/// A float is held by the bit pattern of its IEEE 754 double, so that numbers
/// can be compared and looked up exactly: two floats are the same number when
/// their bits are the same. A parser yields `Signed` for negative integers
/// only; the library itself treats the tag, not the sign, as the sub-kind.
#[derive(Clone, Copy, Debug, PartialEq, Eq, Structural)]
pub enum Number {
    /// An integer read as unsigned.
    Unsigned(u64),
    /// An integer read as signed.
    Signed(i64),
    /// The bits of a double.
    Float(u64),
}

impl Number {
    /// The sub-kind that the number is tagged with.
    pub open spec fn sub_kind(self) -> NumberKind {
        match self {
            Number::Unsigned(_) => NumberKind::Unsigned,
            Number::Signed(_) => NumberKind::Signed,
            Number::Float(_) => NumberKind::Float,
        }
    }

    /// The sub-kind that the number is tagged with.
    pub fn kind(&self) -> (kind: NumberKind)
        ensures
            kind == self.sub_kind(),
    {
        match self {
            Number::Unsigned(_) => NumberKind::Unsigned,
            Number::Signed(_) => NumberKind::Signed,
            Number::Float(_) => NumberKind::Float,
        }
    }
}

/// A JSON value.
#[derive(Debug, PartialEq, Eq)]
pub enum Json {
    Null,
    Bool(bool),
    Number(Number),
    String(String),
    Array(Vec<Json>),
    /// The entries in the order in which they were inserted.
    Object(Vec<(String, Json)>),
}

/// The mathematical value of a [`Json`]: a string is a sequence of
/// characters, an array a sequence of values, an object a sequence of entries.
pub enum JsonView {
    Null,
    Bool(bool),
    Number(Number),
    String(Seq<char>),
    Array(Seq<JsonView>),
    Object(Seq<(Seq<char>, JsonView)>),
}

impl JsonView {
    /// A scalar is a leaf that carries content: a number or a string.
    pub open spec fn is_scalar(self) -> bool {
        self is Number || self is String
    }
}

/// The value of `json`, by recursion on its structure.
pub open spec fn json_view(json: Json) -> JsonView
    decreases json,
{
    match json {
        Json::Null => JsonView::Null,
        Json::Bool(b) => JsonView::Bool(b),
        Json::Number(n) => JsonView::Number(n),
        Json::String(s) => JsonView::String(s@),
        Json::Array(items) => JsonView::Array(
            Seq::new(
                items.len() as nat,
                |i: int|
                    if 0 <= i < items.len() {
                        json_view(items[i])
                    } else {
                        JsonView::Null
                    },
            ),
        ),
        Json::Object(entries) => JsonView::Object(
            Seq::new(
                entries.len() as nat,
                |i: int|
                    if 0 <= i < entries.len() {
                        (entries[i].0@, json_view(entries[i].1))
                    } else {
                        (Seq::empty(), JsonView::Null)
                    },
            ),
        ),
    }
}

impl View for Json {
    type V = JsonView;

    open spec fn view(&self) -> JsonView {
        json_view(*self)
    }
}

impl Json {
    /// A copy with the same value, made by recursion on the structure.
    fn duplicate(&self) -> (copy: Self)
        ensures
            copy@ == self@,
        decreases self,
    {
        match self {
            Json::Null => Json::Null,
            Json::Bool(b) => Json::Bool(*b),
            Json::Number(n) => Json::Number(*n),
            Json::String(s) => Json::String(s.clone()),
            Json::Array(items) => {
                let copies = duplicate_items(items);
                proof {
                    lemma_array_view(*items);
                    lemma_array_view(copies);
                }
                Json::Array(copies)
            },
            Json::Object(entries) => {
                let copies = duplicate_entries(entries);
                proof {
                    lemma_object_view(*entries);
                    lemma_object_view(copies);
                }
                Json::Object(copies)
            },
        }
    }
}

/// Copies of `items`, in their order.
fn duplicate_items(items: &Vec<Json>) -> (copies: Vec<Json>)
    ensures
        items_view(copies@) == items_view(items@),
    decreases items,
{
    let mut copies: Vec<Json> = Vec::new();
    let mut i: usize = 0;
    while i < items.len()
        invariant
            i <= items.len(),
            copies.len() == i,
            forall|j: int| 0 <= j < i ==> (#[trigger] copies[j])@ == items[j]@,
        decreases items.len() - i,
    {
        copies.push(items[i].duplicate());
        i += 1;
    }
    assert(items_view(copies@) =~= items_view(items@));
    copies
}

/// Copies of `entries`, in their order.
fn duplicate_entries(entries: &Vec<(String, Json)>) -> (copies: Vec<(String, Json)>)
    ensures
        entries_view(copies@) == entries_view(entries@),
    decreases entries,
{
    let mut copies: Vec<(String, Json)> = Vec::new();
    let mut i: usize = 0;
    while i < entries.len()
        invariant
            i <= entries.len(),
            copies.len() == i,
            forall|j: int|
                0 <= j < i ==> (#[trigger] copies[j]).0@ == entries[j].0@ && copies[j].1@
                    == entries[j].1@,
        decreases entries.len() - i,
    {
        copies.push((entries[i].0.clone(), entries[i].1.duplicate()));
        i += 1;
    }
    assert(entries_view(copies@) =~= entries_view(entries@));
    copies
}

impl Clone for Json {
    /// A copy with the same value.
    fn clone(&self) -> (copy: Self)
        ensures
            copy@ == self@,
    {
        self.duplicate()
    }
}

/// The values of a sequence of documents or of the items of an array.
pub open spec fn items_view(items: Seq<Json>) -> Seq<JsonView> {
    Seq::new(items.len(), |i: int| items[i]@)
}

/// The values of the entries of an object.
pub open spec fn entries_view(entries: Seq<(String, Json)>) -> Seq<(Seq<char>, JsonView)> {
    Seq::new(entries.len(), |i: int| (entries[i].0@, entries[i].1@))
}

/// The view of an array is the array of the views of its items.
pub proof fn lemma_array_view(items: Vec<Json>)
    ensures
        Json::Array(items)@ == JsonView::Array(items_view(items@)),
{
    assert(Json::Array(items)@->Array_0 =~= items_view(items@));
}

/// The view of an object is the object of the views of its entries.
pub proof fn lemma_object_view(entries: Vec<(String, Json)>)
    ensures
        Json::Object(entries)@ == JsonView::Object(entries_view(entries@)),
{
    assert(Json::Object(entries)@->Object_0 =~= entries_view(entries@));
}

/// The characters that replacement strings are made of: `0-9`, `A-Z`, `a-z`.
pub open spec fn is_alphanumeric(c: char) -> bool {
    let code = c as u32;
    (0x30 <= code <= 0x39) || (0x41 <= code <= 0x5A) || (0x61 <= code <= 0x7A)
}

/// Every character of `s` is alphanumeric.
pub open spec fn all_alphanumeric(s: Seq<char>) -> bool {
    forall|i: int| 0 <= i < s.len() ==> is_alphanumeric(#[trigger] s[i])
}

/// What a replacement string owes its original: the same number of
/// characters, all of them alphanumeric.
pub open spec fn replaces_string(original: Seq<char>, replacement: Seq<char>) -> bool {
    replacement.len() == original.len() && all_alphanumeric(replacement)
}

} // verus!
