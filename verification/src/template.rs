//! What a template is given to render: `tera` contexts and the values in them.
//!
//! `tera` and the JSON values that it works on are outside of what is proved here. The functions
//! below that carry `external_body` state what is relied on.

use tera::{Context, Value};
use vstd::prelude::*;

verus! {

#[verifier::external_type_specification]
#[verifier::external_body]
pub struct ExContext(tera::Context);

#[verifier::external_type_specification]
#[verifier::external_body]
pub struct ExValue(tera::Value);

/// A piece of data as a template sees it.
pub enum Datum {
    /// A text.
    Text(Seq<char>),
    /// A whole number.
    Whole(int),
    /// Several pieces of data, in order.
    List(Seq<Datum>),
    /// Pieces of data by the names of their fields.
    Record(Map<Seq<char>, Datum>),
    /// A truth value.
    Truth(bool),
    /// A fractional number, by how it is written.
    Fraction(Seq<char>),
    /// Nothing.
    Nothing,
}

/// The data that a value holds.
pub uninterp spec fn datum(value: &Value) -> Datum;

/// The data that a context holds, by name.
pub uninterp spec fn context_entries(context: &Context) -> Map<Seq<char>, Datum>;

/// The data of a context to which nothing was added.
pub open spec fn no_entries() -> Map<Seq<char>, Datum> {
    Map::empty()
}

/// The data of a sequence of values.
pub open spec fn data_of(values: Seq<Value>) -> Seq<Datum> {
    values.map_values(|v: Value| datum(&v))
}

/// The fields of a record that is made of pairs of a name and a value.
pub open spec fn fields_of(fields: Seq<(String, Value)>) -> Map<Seq<char>, Datum>
    decreases fields.len(),
{
    if fields.len() == 0 {
        Map::empty()
    } else {
        fields_of(fields.drop_last()).insert(fields.last().0@, datum(&fields.last().1))
    }
}

/// `tera::Context::new`: the context holds nothing.
pub assume_specification[ tera::Context::new ]() -> (context: tera::Context)
    ensures
        context_entries(&context) == no_entries(),
;

/// `tera::Context::add`: the context holds the value under the name, in place of what it held under
/// that name before; everything else stays.
#[verifier::external_body]
pub(crate) fn add_entry(context: &mut Context, key: &str, value: &Value)
    ensures
        context_entries(final(context)) == context_entries(old(context)).insert(key@, datum(value)),
{
    context.add(key, value);
}

/// `serde_json`'s conversion of a `&str` into a `Value`: the value holds that text.
#[verifier::external_body]
pub(crate) fn value_of_text(text: &str) -> (value: Value)
    ensures
        datum(&value) == Datum::Text(text@),
{
    Value::from(text)
}

/// `serde_json`'s conversion of a `usize` into a `Value`: the value holds that number.
#[verifier::external_body]
pub(crate) fn value_of_count(count: usize) -> (value: Value)
    ensures
        datum(&value) == Datum::Whole(count as int),
{
    Value::from(count)
}

/// `serde_json`'s conversion of a `Vec<Value>` into a `Value`: the value is the list of these
/// values, in their order.
#[verifier::external_body]
pub(crate) fn value_of_list(values: Vec<Value>) -> (value: Value)
    ensures
        datum(&value) == Datum::List(data_of(values@)),
{
    Value::from(values)
}

/// `serde_json`'s collection of pairs into a `Value`: the value is the record with these fields; of
/// two fields with one name it has the later one.
#[verifier::external_body]
pub(crate) fn value_of_fields(fields: Vec<(String, Value)>) -> (value: Value)
    ensures
        datum(&value) == Datum::Record(fields_of(fields@)),
{
    fields.into_iter().collect()
}

/// `serde_json`'s clone of a `Value`: it holds the same data.
#[verifier::external_body]
pub(crate) fn clone_value(value: &Value) -> (copy: Value)
    ensures
        datum(&copy) == datum(value),
{
    value.clone()
}

} // verus!
