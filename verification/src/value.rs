//! The stored value type: an opaque byte string.
use vstd::prelude::*;

verus! {

/// What a key can map to in the string table.
#[derive(Debug)]
pub enum Value {
    String(Vec<u8>),
}

impl View for Value {
    type V = Seq<u8>;

    open spec fn view(&self) -> Seq<u8> {
        match self {
            Value::String(s) => s@,
        }
    }
}

impl Value {
    /// The name of this value's type, as the TYPE command reports it.
    pub fn type_string(&self) -> (r: String)
        ensures
            r@ == "string"@,
    {
        String::from_str("string")
    }

    /// The bytes as text, when they are valid UTF-8.
    pub fn to_string(&self) -> (r: Option<String>)
        ensures
            r is Some <==> vstd::utf8::valid_utf8(self@),
            (r matches Some(s) ==> s@ == vstd::utf8::decode_utf8(self@)),
    {
        match self {
            Value::String(s) => crate::resp::bytes_to_string(vstd::slice::slice_to_vec(
                s.as_slice(),
            )),
        }
    }

    /// The bytes themselves.
    pub fn bytes(&self) -> (r: &Vec<u8>)
        ensures
            r@ == self@,
    {
        match self {
            Value::String(s) => s,
        }
    }

    /// A value holding the same bytes.
    pub fn duplicate(&self) -> (r: Value)
        ensures
            r@ == self@,
    {
        match self {
            Value::String(s) => Value::String(vstd::slice::slice_to_vec(s.as_slice())),
        }
    }
}

} // verus!
