//! The YAML tree that the conversions work on, and its mathematical model.

use vstd::prelude::*;

verus! {

/// A YAML number, integer or floating point, carried through unchanged.
#[verifier::external_type_specification]
#[verifier::external_body]
pub struct ExNumber(serde_yaml_ng::Number);

/// The text that `serde_yaml_ng` prints for a number; it depends on the
/// number alone.
pub uninterp spec fn number_text(n: serde_yaml_ng::Number) -> Seq<char>;

/// Relies on `Display for serde_yaml_ng::Number` (through `to_string`): the
/// canonical text of the number (decimal digits for integers, the shortest
/// round-tripping form for floats).
#[verifier::external_body]
pub(crate) fn number_to_text(n: &serde_yaml_ng::Number) -> (r: String)
    ensures
        r@ == number_text(*n),
{
    n.to_string()
}

/// A mapping key: a literal scalar. Null and composite keys cannot be built.
#[derive(Debug)]
pub enum Key {
    Bool(bool),
    Number(serde_yaml_ng::Number),
    String(String),
}

/// A YAML value. Tagged values are not represented.
#[derive(Debug)]
pub enum Value {
    Null,
    Bool(bool),
    Number(serde_yaml_ng::Number),
    String(String),
    Sequence(Vec<Value>),
    /// The entries of a mapping, in their insertion order. A parsed document
    /// holds each key at most once per mapping.
    Mapping(Vec<(Key, Value)>),
}

/// The model of a mapping key.
pub enum KeyModel {
    Bool(bool),
    Number(serde_yaml_ng::Number),
    Text(Seq<char>),
}

/// The model of a YAML value; a mapping keeps the order of its entries.
pub enum Tree {
    Null,
    Bool(bool),
    Number(serde_yaml_ng::Number),
    Text(Seq<char>),
    Sequence(Seq<Tree>),
    Mapping(Seq<(KeyModel, Tree)>),
}

impl Key {
    pub open spec fn view(&self) -> KeyModel {
        match self {
            Key::Bool(b) => KeyModel::Bool(*b),
            Key::Number(n) => KeyModel::Number(*n),
            Key::String(s) => KeyModel::Text(s@),
        }
    }
}

impl Value {
    pub open spec fn view(&self) -> Tree
        decreases self, 0int,
    {
        match self {
            Value::Null => Tree::Null,
            Value::Bool(b) => Tree::Bool(*b),
            Value::Number(n) => Tree::Number(*n),
            Value::String(s) => Tree::Text(s@),
            Value::Sequence(items) => Tree::Sequence(views_of_items(items@, items@.len() as int)),
            Value::Mapping(entries) => Tree::Mapping(
                views_of_entries(entries@, entries@.len() as int),
            ),
        }
    }
}

/// The model of a whole list of entries.
pub open spec fn entries_view(entries: Seq<(Key, Value)>) -> Seq<(KeyModel, Tree)> {
    views_of_entries(entries, entries.len() as int)
}

/// The models of the first `n` items.
pub open spec fn views_of_items(items: Seq<Value>, n: int) -> Seq<Tree>
    decreases items, n,
{
    if n <= 0 || n > items.len() {
        Seq::empty()
    } else {
        views_of_items(items, n - 1).push(items[n - 1].view())
    }
}

/// The models of the first `n` entries.
pub open spec fn views_of_entries(entries: Seq<(Key, Value)>, n: int) -> Seq<(KeyModel, Tree)>
    decreases entries, n,
{
    if n <= 0 || n > entries.len() {
        Seq::empty()
    } else {
        views_of_entries(entries, n - 1).push((entries[n - 1].0.view(), entries[n - 1].1.view()))
    }
}

pub proof fn lemma_views_of_entries(entries: Seq<(Key, Value)>, n: int)
    requires
        0 <= n <= entries.len(),
    ensures
        views_of_entries(entries, n).len() == n,
        forall|i: int|
            0 <= i < n ==> #[trigger] views_of_entries(entries, n)[i] == (
                entries[i].0.view(),
                entries[i].1.view(),
            ),
    decreases n,
{
    if n > 0 {
        lemma_views_of_entries(entries, n - 1);
    }
}

pub proof fn lemma_entries_view(entries: Seq<(Key, Value)>)
    ensures
        entries_view(entries).len() == entries.len(),
        forall|i: int|
            0 <= i < entries.len() ==> #[trigger] entries_view(entries)[i] == (
                entries[i].0.view(),
                entries[i].1.view(),
            ),
{
    lemma_views_of_entries(entries, entries.len() as int);
}

} // verus!
