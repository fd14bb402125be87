//! The template engine: the values and the context that it takes as
//! variables.

use vstd::prelude::*;

verus! {

/// A value that the engine takes as a template variable.
#[verifier::external_type_specification]
#[verifier::external_body]
pub struct ExValue(tera::Value);

/// The variables that a template is rendered with.
#[verifier::external_type_specification]
#[verifier::external_body]
pub struct ExContext(tera::Context);

/// An error of the engine.
#[verifier::external_type_specification]
#[verifier::external_body]
pub struct ExError(tera::Error);

/// The engine's string value that holds `text`.
pub uninterp spec fn text_value(text: Seq<char>) -> tera::Value;

/// The engine's array value that holds `items` in their order.
pub uninterp spec fn list_value(items: Seq<tera::Value>) -> tera::Value;

/// The engine's object value that is collected from `entries` in their
/// order.
pub uninterp spec fn object_value(entries: Seq<(Seq<char>, tera::Value)>) -> tera::Value;

/// The rendering context that the engine makes of the object `value`.
pub uninterp spec fn context_of(value: tera::Value) -> tera::Context;

/// `entries` with each key as its sequence of characters.
pub open spec fn keyed(entries: Seq<(String, tera::Value)>) -> Seq<(Seq<char>, tera::Value)> {
    Seq::new(entries.len(), |i: int| (entries[i].0@, entries[i].1))
}

/// Calls `From<&str>` of `tera::Value`, which gives the string value with
/// a copy of the text.
#[verifier::external_body]
pub(crate) fn make_text(text: &str) -> (value: tera::Value)
    ensures
        value == text_value(text@),
{
    tera::Value::from(text)
}

/// Calls `From<Vec<T>>` of `tera::Value`, which gives the array value with
/// the items in their order.
#[verifier::external_body]
pub(crate) fn make_list(items: Vec<tera::Value>) -> (value: tera::Value)
    ensures
        value == list_value(items@),
{
    tera::Value::from(items)
}

/// Calls `FromIterator<(K, V)>` of `tera::Value`, which collects the pairs
/// into an object value.
#[verifier::external_body]
pub(crate) fn make_object(entries: Vec<(String, tera::Value)>) -> (value: tera::Value)
    ensures
        value == object_value(keyed(entries@)),
{
    entries.into_iter().collect()
}

/// Whether `value` is an object value: what collecting some pairs gives.
pub open spec fn is_object(value: tera::Value) -> bool {
    exists|entries: Seq<(Seq<char>, tera::Value)>| value == #[trigger] object_value(entries)
}

/// Calls `tera::Context::from_value`, which moves the entries of an object
/// value into a context and fails for a value that is no object. What is
/// collected from pairs is an object, so for such a value the call
/// succeeds.
#[verifier::external_body]
pub(crate) fn make_context(value: tera::Value) -> (made: Result<tera::Context, tera::Error>)
    ensures
        is_object(value) ==> made is Ok,
        made matches Ok(context) ==> context == context_of(value),
{
    tera::Context::from_value(value)
}

} // verus!
