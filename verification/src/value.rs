//! The value tree built by the parser, and its mathematical model.

use vstd::prelude::*;

verus! {

broadcast use vstd::std_specs::vec::axiom_vec_index_decreases;

/// The mathematical model of a parsed value: a closed tagged union over
/// sequences of characters and nested values. An object is an ordered
/// association sequence whose keys are unique; its order is the order in
/// which the keys first appeared in the input.
#[verifier::ext_equal]
pub enum SpecValue {
    Null,
    Str(Seq<char>),
    Boolean(bool),
    /// The numeric literal exactly as it stood in the input.
    Num(Seq<char>),
    Array(Seq<SpecValue>),
    Object(Seq<(Seq<char>, SpecValue)>),
}

/// A parsed value. Each node exclusively owns its children; a tree is
/// immutable once constructed.
///
/// A number is kept as the exact literal text that was matched, so no
/// precision is lost in the core; turning it into a machine float is the
/// caller's choice (ordinary `str::parse::<f64>` accepts every literal
/// the grammar admits).
///
/// An object is a vector of key-value pairs with unique keys, ordered by
/// first appearance; a later duplicate key in the input overwrites the
/// earlier key's value in place.
#[derive(Debug, PartialEq)]
pub enum JsonValue {
    Null,
    Str(String),
    Boolean(bool),
    Num(String),
    Array(Vec<JsonValue>),
    Object(Vec<(String, JsonValue)>),
}

impl JsonValue {
    /// The mathematical value this tree stands for.
    pub open spec fn deep(self) -> SpecValue
        decreases self,
    {
        match self {
            JsonValue::Null => SpecValue::Null,
            JsonValue::Str(s) => SpecValue::Str(s@),
            JsonValue::Boolean(b) => SpecValue::Boolean(b),
            JsonValue::Num(raw) => SpecValue::Num(raw@),
            JsonValue::Array(elems) => SpecValue::Array(
                Seq::new(
                    elems@.len(),
                    |k: int|
                        if 0 <= k < elems@.len() {
                            elems@[k].deep()
                        } else {
                            SpecValue::Null
                        },
                ),
            ),
            JsonValue::Object(members) => SpecValue::Object(
                Seq::new(
                    members@.len(),
                    |k: int|
                        if 0 <= k < members@.len() {
                            (members@[k].0@, members@[k].1.deep())
                        } else {
                            (Seq::<char>::empty(), SpecValue::Null)
                        },
                ),
            ),
        }
    }
}

impl View for JsonValue {
    type V = SpecValue;

    open spec fn view(&self) -> SpecValue {
        self.deep()
    }
}

} // verus!
