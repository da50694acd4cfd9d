//! The value descriptor: the fixed-layout tagged form in which a bridge
//! value crosses the foreign-function boundary. The tag says which variant
//! the payload spells; scalars travel inline as their bit pattern, reference
//! variants travel as the bare slot token, to be re-bound to a context on
//! the other side. Descriptors live only for the crossing itself: a
//! reference payload carries no ownership, so taking ownership of the slot
//! is a separate, explicit reference-count increment.

use vstd::prelude::*;
use crate::value::{Array, Function, Handle, JsString, Object, Value};

verus! {

/// The tag of an undefined descriptor.
pub const TAG_UNDEFINED: u8 = 0;

/// The tag of a null descriptor.
pub const TAG_NULL: u8 = 1;

/// The tag of a boolean descriptor; the payload is zero or one.
pub const TAG_BOOLEAN: u8 = 2;

/// The tag of a number descriptor; the payload is the double's bits.
pub const TAG_NUMBER: u8 = 3;

/// The tag of a date descriptor; the payload is the double's bits.
pub const TAG_DATE: u8 = 4;

/// The tag of a string descriptor; the payload is the slot token.
pub const TAG_STRING: u8 = 5;

/// The tag of an array descriptor; the payload is the slot token.
pub const TAG_ARRAY: u8 = 6;

/// The tag of a function descriptor; the payload is the slot token.
pub const TAG_FUNCTION: u8 = 7;

/// The tag of an object descriptor; the payload is the slot token.
pub const TAG_OBJECT: u8 = 8;

/// A bridge value in the plain-data form that crosses the foreign boundary:
/// a tag and a 64-bit payload whose meaning the tag alone determines.
#[derive(Clone, Copy, PartialEq, Eq, Structural, Debug)]
pub struct Descriptor {
    pub tag: u8,
    pub payload: u64,
}

/// The tags this bridge sends and accepts. The tag space is closed: it is
/// written only by this codec and its peer on the far side of the boundary,
/// so a tag outside the set is a protocol violation, not an input error.
pub open spec fn tag_known_spec(tag: u8) -> bool {
    TAG_UNDEFINED <= tag <= TAG_OBJECT
}

/// Whether a tag belongs to the closed tag set.
pub fn tag_known(tag: u8) -> (r: bool)
    ensures
        r == tag_known_spec(tag),
{
    tag <= TAG_OBJECT
}

/// The descriptor a value encodes to. Scalars carry their payload inline;
/// reference variants expose the slot token of their handle, without
/// touching its reference count.
pub open spec fn encode_spec(v: Value) -> Descriptor {
    match v {
        Value::Undefined => Descriptor { tag: TAG_UNDEFINED, payload: 0 },
        Value::Null => Descriptor { tag: TAG_NULL, payload: 0 },
        Value::Boolean(b) => Descriptor {
            tag: TAG_BOOLEAN,
            payload: if b {
                1
            } else {
                0
            },
        },
        Value::Number(n) => Descriptor { tag: TAG_NUMBER, payload: n },
        Value::Date(d) => Descriptor { tag: TAG_DATE, payload: d },
        Value::String(s) => Descriptor { tag: TAG_STRING, payload: s.handle.slot as u64 },
        Value::Array(a) => Descriptor { tag: TAG_ARRAY, payload: a.handle.slot as u64 },
        Value::Function(f) => Descriptor { tag: TAG_FUNCTION, payload: f.handle.slot as u64 },
        Value::Object(o) => Descriptor { tag: TAG_OBJECT, payload: o.handle.slot as u64 },
    }
}

/// The value a descriptor decodes to against a context: scalars are copied
/// out of the payload, reference tokens are bound to the given context
/// identity.
pub open spec fn decode_spec(d: Descriptor, ctx: u64) -> Value {
    let h = Handle { ctx, slot: d.payload as usize };
    if d.tag == TAG_UNDEFINED {
        Value::Undefined
    } else if d.tag == TAG_NULL {
        Value::Null
    } else if d.tag == TAG_BOOLEAN {
        Value::Boolean(d.payload != 0)
    } else if d.tag == TAG_NUMBER {
        Value::Number(d.payload)
    } else if d.tag == TAG_DATE {
        Value::Date(d.payload)
    } else if d.tag == TAG_STRING {
        Value::String(JsString { handle: h })
    } else if d.tag == TAG_ARRAY {
        Value::Array(Array { handle: h })
    } else if d.tag == TAG_FUNCTION {
        Value::Function(Function { handle: h })
    } else {
        Value::Object(Object { handle: h })
    }
}

/// Encodes a value for the boundary crossing.
pub fn encode(v: &Value) -> (d: Descriptor)
    ensures
        d == encode_spec(*v),
        tag_known_spec(d.tag),
{
    match *v {
        Value::Undefined => Descriptor { tag: TAG_UNDEFINED, payload: 0 },
        Value::Null => Descriptor { tag: TAG_NULL, payload: 0 },
        Value::Boolean(b) => Descriptor { tag: TAG_BOOLEAN, payload: if b { 1 } else { 0 } },
        Value::Number(n) => Descriptor { tag: TAG_NUMBER, payload: n },
        Value::Date(d) => Descriptor { tag: TAG_DATE, payload: d },
        Value::String(s) => Descriptor { tag: TAG_STRING, payload: s.handle.slot as u64 },
        Value::Array(a) => Descriptor { tag: TAG_ARRAY, payload: a.handle.slot as u64 },
        Value::Function(f) => Descriptor { tag: TAG_FUNCTION, payload: f.handle.slot as u64 },
        Value::Object(o) => Descriptor { tag: TAG_OBJECT, payload: o.handle.slot as u64 },
    }
}

/// Decodes a descriptor against a context identity. The tag space is
/// closed, so a tag outside it is a fatal protocol violation, excluded here
/// by precondition; `try_decode` is the checking form.
pub fn decode(d: Descriptor, ctx: u64) -> (v: Value)
    requires
        tag_known_spec(d.tag),
    ensures
        v == decode_spec(d, ctx),
{
    let h = Handle { ctx, slot: d.payload as usize };
    if d.tag == TAG_UNDEFINED {
        Value::Undefined
    } else if d.tag == TAG_NULL {
        Value::Null
    } else if d.tag == TAG_BOOLEAN {
        Value::Boolean(d.payload != 0)
    } else if d.tag == TAG_NUMBER {
        Value::Number(d.payload)
    } else if d.tag == TAG_DATE {
        Value::Date(d.payload)
    } else if d.tag == TAG_STRING {
        Value::String(JsString { handle: h })
    } else if d.tag == TAG_ARRAY {
        Value::Array(Array { handle: h })
    } else if d.tag == TAG_FUNCTION {
        Value::Function(Function { handle: h })
    } else {
        Value::Object(Object { handle: h })
    }
}

/// Decodes a descriptor whose tag has not been checked yet: a tag outside
/// the closed set yields nothing.
pub fn try_decode(d: Descriptor, ctx: u64) -> (r: Option<Value>)
    ensures
        r is Some <==> tag_known_spec(d.tag),
        tag_known_spec(d.tag) ==> r == Some(decode_spec(d, ctx)),
{
    if tag_known(d.tag) {
        Some(decode(d, ctx))
    } else {
        None
    }
}

/// Encoding then decoding gives the value back: exactly, for every scalar —
/// boolean, any number or date bit pattern, NaN and infinities included —
/// and for every reference value whose handle belongs to the context the
/// decoder binds to, provided its slot token survives the crossing.
pub proof fn lemma_codec_round_trip(v: Value, ctx: u64)
    requires
        v.is_reference() ==> v.spec_handle().ctx == ctx && v.spec_handle().slot as u64 as usize
            == v.spec_handle().slot,
    ensures
        decode_spec(encode_spec(v), ctx) == v,
{
}

/// Decoding then encoding gives the descriptor back for every known tag
/// with an in-range payload: the codec loses nothing in either direction.
pub proof fn lemma_codec_round_trip_back(d: Descriptor, ctx: u64)
    requires
        tag_known_spec(d.tag),
        d.tag == TAG_UNDEFINED || d.tag == TAG_NULL ==> d.payload == 0,
        d.tag == TAG_BOOLEAN ==> d.payload == 0 || d.payload == 1,
        d.payload as usize as u64 == d.payload,
    ensures
        encode_spec(decode_spec(d, ctx)) == d,
{
}

} // verus!
