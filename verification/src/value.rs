//! The bridge value type: the host-side closed set of variants that can stand
//! for any JavaScript-visible value. Scalar variants carry their payload
//! inline; reference variants carry a handle into one execution context.

use vstd::prelude::*;

verus! {

/// A reference into an execution context: the identity of the context that
/// owns the underlying engine slot, and the index of that slot.
///
/// A handle is plain data; the reference-count bookkeeping that governs when
/// the slot may still be used lives in the owning context (`MiniV8`), which
/// every dereferencing operation must be handed.
#[derive(Clone, Copy, PartialEq, Eq, Structural, Debug)]
pub struct Handle {
    /// Identity of the owning execution context.
    pub ctx: u64,
    /// Index of the slot inside the owning context.
    pub slot: usize,
}

/// An immutable JavaScript string, held by the engine; the handle points at
/// the slot that stores its text.
#[derive(Clone, Copy, PartialEq, Eq, Structural, Debug)]
pub struct JsString {
    pub handle: Handle,
}

/// A reference to a JavaScript array.
#[derive(Clone, Copy, PartialEq, Eq, Structural, Debug)]
pub struct Array {
    pub handle: Handle,
}

/// A reference to a JavaScript function.
#[derive(Clone, Copy, PartialEq, Eq, Structural, Debug)]
pub struct Function {
    pub handle: Handle,
}

/// A reference to a JavaScript object that is neither an array nor a
/// function.
#[derive(Clone, Copy, PartialEq, Eq, Structural, Debug)]
pub struct Object {
    pub handle: Handle,
}

/// A JavaScript value.
///
/// Scalar variants (undefined, null, booleans, numbers, dates) carry their
/// payload directly; numbers and dates carry the 64 bits of the IEEE 754
/// double that the engine would hold, so that values with no exact host
/// integer form (NaN, infinities, fractions) pass through unchanged.
/// Reference variants (strings, arrays, functions, other objects) carry a
/// handle, so copying a reference value aliases the engine slot rather than
/// deep-copying engine data.
#[derive(Clone, Copy, PartialEq, Eq, Structural, Debug)]
pub enum Value {
    /// The JavaScript value `undefined`.
    Undefined,
    /// The JavaScript value `null`.
    Null,
    /// The JavaScript value `true` or `false`.
    Boolean(bool),
    /// A JavaScript number, as the bits of an IEEE 754 double.
    Number(u64),
    /// A JavaScript date: elapsed milliseconds since the Unix epoch, as the
    /// bits of an IEEE 754 double.
    Date(u64),
    /// A JavaScript string.
    String(JsString),
    /// A JavaScript array.
    Array(Array),
    /// A JavaScript function.
    Function(Function),
    /// A JavaScript object that is neither an array nor a function.
    Object(Object),
}

impl Value {
    /// True exactly of the reference variants: those whose payload is a
    /// handle that must be released against its owning context.
    pub open spec fn is_reference(self) -> bool {
        self is String || self is Array || self is Function || self is Object
    }

    /// The handle of a reference variant.
    pub open spec fn spec_handle(self) -> Handle
        recommends
            self.is_reference(),
    {
        match self {
            Value::String(s) => s.handle,
            Value::Array(a) => a.handle,
            Value::Function(f) => f.handle,
            Value::Object(o) => o.handle,
            _ => Handle { ctx: 0, slot: 0 },
        }
    }

    /// Returns `true` if this is a `Value::Undefined`, `false` otherwise.
    pub fn is_undefined(&self) -> (r: bool)
        ensures
            r == (*self is Undefined),
    {
        matches!(*self, Value::Undefined)
    }

    /// Returns `true` if this is a `Value::Null`, `false` otherwise.
    pub fn is_null(&self) -> (r: bool)
        ensures
            r == (*self is Null),
    {
        matches!(*self, Value::Null)
    }

    /// Returns `true` if this is a `Value::Boolean`, `false` otherwise.
    pub fn is_boolean(&self) -> (r: bool)
        ensures
            r == (*self is Boolean),
    {
        matches!(*self, Value::Boolean(_))
    }

    /// Returns `true` if this is a `Value::Number`, `false` otherwise.
    pub fn is_number(&self) -> (r: bool)
        ensures
            r == (*self is Number),
    {
        matches!(*self, Value::Number(_))
    }

    /// Returns `true` if this is a `Value::Date`, `false` otherwise.
    pub fn is_date(&self) -> (r: bool)
        ensures
            r == (*self is Date),
    {
        matches!(*self, Value::Date(_))
    }

    /// Returns `true` if this is a `Value::String`, `false` otherwise.
    pub fn is_string(&self) -> (r: bool)
        ensures
            r == (*self is String),
    {
        matches!(*self, Value::String(_))
    }

    /// Returns `true` if this is a `Value::Array`, `false` otherwise.
    pub fn is_array(&self) -> (r: bool)
        ensures
            r == (*self is Array),
    {
        matches!(*self, Value::Array(_))
    }

    /// Returns `true` if this is a `Value::Function`, `false` otherwise.
    pub fn is_function(&self) -> (r: bool)
        ensures
            r == (*self is Function),
    {
        matches!(*self, Value::Function(_))
    }

    /// Returns `true` if this is a `Value::Object`, `false` otherwise.
    pub fn is_object(&self) -> (r: bool)
        ensures
            r == (*self is Object),
    {
        matches!(*self, Value::Object(_))
    }

    /// Returns `Some(())` if this is a `Value::Undefined`, `None` otherwise.
    pub fn as_undefined(&self) -> (r: Option<()>)
        ensures
            r is Some <==> *self is Undefined,
    {
        if let Value::Undefined = *self { Some(()) } else { None }
    }

    /// Returns `Some(())` if this is a `Value::Null`, `None` otherwise.
    pub fn as_null(&self) -> (r: Option<()>)
        ensures
            r is Some <==> *self is Null,
    {
        if let Value::Null = *self { Some(()) } else { None }
    }

    /// Returns `Some` if this is a `Value::Boolean`, `None` otherwise.
    pub fn as_boolean(&self) -> (r: Option<bool>)
        ensures
            r is Some <==> *self is Boolean,
            *self matches Value::Boolean(b) ==> r == Some(b),
    {
        if let Value::Boolean(value) = *self { Some(value) } else { None }
    }

    /// Returns `Some` if this is a `Value::Number`, `None` otherwise. The
    /// payload is the bit pattern of the IEEE 754 double.
    pub fn as_number(&self) -> (r: Option<u64>)
        ensures
            r is Some <==> *self is Number,
            *self matches Value::Number(n) ==> r == Some(n),
    {
        if let Value::Number(value) = *self { Some(value) } else { None }
    }

    /// Returns `Some` if this is a `Value::Date`, `None` otherwise. The
    /// payload is the bit pattern of the IEEE 754 double.
    pub fn as_date(&self) -> (r: Option<u64>)
        ensures
            r is Some <==> *self is Date,
            *self matches Value::Date(d) ==> r == Some(d),
    {
        if let Value::Date(value) = *self { Some(value) } else { None }
    }

    /// Returns `Some` if this is a `Value::String`, `None` otherwise.
    pub fn as_string(&self) -> (r: Option<&JsString>)
        ensures
            r is Some <==> *self is String,
            *self matches Value::String(s) ==> r matches Some(rs) && *rs == s,
    {
        if let Value::String(ref value) = *self { Some(value) } else { None }
    }

    /// Returns `Some` if this is a `Value::Array`, `None` otherwise.
    pub fn as_array(&self) -> (r: Option<&Array>)
        ensures
            r is Some <==> *self is Array,
            *self matches Value::Array(a) ==> r matches Some(ra) && *ra == a,
    {
        if let Value::Array(ref value) = *self { Some(value) } else { None }
    }

    /// Returns `Some` if this is a `Value::Function`, `None` otherwise.
    pub fn as_function(&self) -> (r: Option<&Function>)
        ensures
            r is Some <==> *self is Function,
            *self matches Value::Function(f) ==> r matches Some(rf) && *rf == f,
    {
        if let Value::Function(ref value) = *self { Some(value) } else { None }
    }

    /// Returns `Some` if this is a `Value::Object`, `None` otherwise.
    pub fn as_object(&self) -> (r: Option<&Object>)
        ensures
            r is Some <==> *self is Object,
            *self matches Value::Object(o) ==> r matches Some(ro) && *ro == o,
    {
        if let Value::Object(ref value) = *self { Some(value) } else { None }
    }

    /// The name of the value's JavaScript type, as used in conversion error
    /// reports.
    pub fn kind_name(&self) -> (r: &'static str)
        ensures
            r@ == kind_name_of(*self),
    {
        match *self {
            Value::Undefined => "undefined",
            Value::Null => "null",
            Value::Boolean(_) => "boolean",
            Value::Number(_) => "number",
            Value::Date(_) => "date",
            Value::Function(_) => "function",
            Value::Array(_) => "array",
            Value::Object(_) => "object",
            Value::String(_) => "string",
        }
    }
}

/// The JavaScript type name of each variant.
pub open spec fn kind_name_of(v: Value) -> Seq<char> {
    match v {
        Value::Undefined => "undefined"@,
        Value::Null => "null"@,
        Value::Boolean(_) => "boolean"@,
        Value::Number(_) => "number"@,
        Value::Date(_) => "date"@,
        Value::Function(_) => "function"@,
        Value::Array(_) => "array"@,
        Value::Object(_) => "object"@,
        Value::String(_) => "string"@,
    }
}

} // verus!
