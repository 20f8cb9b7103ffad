//! The value model: a tree of nulls, booleans, strings, numbers, arrays and
//! objects, and the mathematical tree that contracts speak of.

use crate::object::ObjectMap;
use vstd::prelude::*;

verus! {

/// The kinds of value that the configuration language knows.
pub enum JsonnetTypes {
    Null,
    Bool,
    String,
    Number,
    Array,
    Object,
    Fn,
}

/// A value tree as mathematics sees it: the view of a [`Jsonnet`].
pub ghost enum Value {
    Null,
    Bool(bool),
    /// The characters of a string.
    String(Seq<char>),
    /// The decimal text of a number.
    Number(Seq<char>),
    /// The elements, in order.
    Array(Seq<Value>),
    /// The entries, in the order in which the object holds them.
    Object(Seq<(Seq<char>, Value)>),
}

/// A value of the configuration language.
pub enum Jsonnet {
    Null,
    Bool(bool),
    /// A string, kept as it is.
    String(String),
    /// A number, kept as its decimal text.
    Number(String),
    /// An ordered sequence of values.
    Array(Vec<Jsonnet>),
    /// A mapping from keys to values, in ascending order of the keys.
    Object(ObjectMap),
}

/// What can present itself as a value.
pub trait HasSonnet {
    /// The value that stands for `self`.
    fn jsonnet(&self) -> Jsonnet;
}

impl View for Jsonnet {
    type V = Value;

    open spec fn view(&self) -> Value
        decreases self,
    {
        match self {
            Jsonnet::Null => Value::Null,
            Jsonnet::Bool(b) => Value::Bool(*b),
            Jsonnet::String(s) => Value::String(s@),
            Jsonnet::Number(t) => Value::Number(t@),
            Jsonnet::Array(xs) => Value::Array(
                Seq::new(
                    xs.len() as nat,
                    |i: int|
                        if 0 <= i < xs.len() {
                            xs[i].view()
                        } else {
                            Value::Null
                        },
                ),
            ),
            Jsonnet::Object(m) => Value::Object(m.entries()),
        }
    }
}

} // verus!
