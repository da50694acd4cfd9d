//! The error taxonomy of the bridge, and the normalization of a host error
//! into an engine-visible exception value.

use vstd::prelude::*;
use crate::mini_v8::{obj_of, text_of, CtxView, MiniV8};
use crate::object::is_canonical_index;
use crate::value::{Handle, Value};

verus! {

/// An error arising from use of the bridge.
///
/// Conversion failures and script exceptions are ordinary, recoverable
/// results. Fatal conditions — cross-context handle use, use after
/// teardown, a panic unwinding out of a callback — are never represented
/// here: they abort instead, because the engine has no defined state to
/// continue from.
#[derive(Debug)]
pub enum Error {
    /// A host value could not be turned into a JavaScript value.
    ToJsConversionError {
        /// Name of the host type that could not be converted.
        from: &'static str,
        /// Name of the JavaScript type that could not be created.
        to: &'static str,
    },
    /// A JavaScript value could not be turned into the requested host type.
    FromJsConversionError {
        /// Name of the JavaScript type that could not be converted.
        from: &'static str,
        /// Name of the host type that could not be created.
        to: &'static str,
    },
    /// An evaluation exceeded its deadline and was terminated.
    Timeout,
    /// A mutable callback re-entered itself while already borrowed.
    RecursiveMutCallback,
    /// A timeout was requested where it cannot be honored: from inside a
    /// nested evaluation.
    InvalidTimeout,
    /// An exception raised inside the JavaScript environment, carrying the
    /// thrown value itself.
    Value(Value),
}

/// The `name` property the engine-visible exception object carries for each
/// error: conversion failures surface as type errors.
pub open spec fn error_name(e: Error) -> Seq<char> {
    match e {
        Error::ToJsConversionError { .. } => "TypeError"@,
        Error::FromJsConversionError { .. } => "TypeError"@,
        _ => "Error"@,
    }
}

/// The `message` property the engine-visible exception object carries.
pub open spec fn error_message(e: Error) -> Seq<char> {
    match e {
        Error::ToJsConversionError { from, to } => "error converting "@ + from@
            + " to JavaScript "@ + to@,
        Error::FromJsConversionError { from, to } => "error converting JavaScript "@ + from@
            + " to "@ + to@,
        Error::Timeout => "evaluation timed out"@,
        Error::RecursiveMutCallback => "mutable callback called recursively"@,
        Error::InvalidTimeout => "invalid request for evaluation timeout"@,
        Error::Value(v) => "JavaScript runtime error ("@ + crate::value::kind_name_of(v) + ")"@,
    }
}

impl Error {
    /// The diagnostic message, as host text.
    pub fn message(&self) -> (r: String)
        ensures
            r@ == error_message(*self),
    {
        match self {
            Error::ToJsConversionError { from, to } => {
                let mut s = String::new();
                s.append("error converting ");
                s.append(from);
                s.append(" to JavaScript ");
                s.append(to);
                s
            },
            Error::FromJsConversionError { from, to } => {
                let mut s = String::new();
                s.append("error converting JavaScript ");
                s.append(from);
                s.append(" to ");
                s.append(to);
                s
            },
            Error::Timeout => "evaluation timed out".to_owned(),
            Error::RecursiveMutCallback => "mutable callback called recursively".to_owned(),
            Error::InvalidTimeout => "invalid request for evaluation timeout".to_owned(),
            Error::Value(v) => {
                let mut s = String::new();
                s.append("JavaScript runtime error (");
                s.append(v.kind_name());
                s.append(")");
                s
            },
        }
    }

    /// Normalizes the error into a JavaScript value for raising inside the
    /// engine: a thrown value passes through unchanged, any other error
    /// becomes a fresh exception object with `name` and `message`
    /// properties.
    pub fn to_value(self, mv8: &mut MiniV8) -> (r: Value)
        requires
            old(mv8)@.alive,
            old(mv8)@.wf(),
        ensures
            final(mv8)@.wf(),
            final(mv8)@.id == old(mv8)@.id,
            final(mv8)@.alive,
            final(mv8)@.depth == old(mv8)@.depth,
            final(mv8)@.slots.len() >= old(mv8)@.slots.len(),
            forall|i: int|
                0 <= i < old(mv8)@.slots.len() ==> final(mv8)@.slots[i] == old(mv8)@.slots[i],
            self matches Error::Value(v) ==> r == v && final(mv8)@ == old(mv8)@,
            !(self matches Error::Value(_)) ==> exception_shape(
                old(mv8)@,
                final(mv8)@,
                r,
                error_name(self),
                error_message(self),
            ),
    {
        let ghost pre = mv8@;
        match self {
            Error::Value(v) => {
                proof {
                    assert(mv8@ == pre);
                    assert forall|i: int| 0 <= i < pre.slots.len() implies mv8@.slots[i]
                        == pre.slots[i] by {}
                }
                v
            },
            e => {
                let obj = mv8.create_object();
                let ghost s = obj.handle.slot as int;
                let ghost ov0 = crate::object::ObjView { elems: Seq::empty(), props: Seq::empty() };
                proof {
                    lemma_keys_distinct();
                    assert(s == pre.slots.len());
                    assert(crate::mini_v8::DataView::Obj(ov0)->Obj_0 == ov0);
                    assert(mv8@.slots[s].data == crate::mini_v8::DataView::Obj(ov0));
                }
                let name_str = match &e {
                    Error::ToJsConversionError { .. } => "TypeError",
                    Error::FromJsConversionError { .. } => "TypeError",
                    _ => "Error",
                };
                let name_val = mv8.create_string(name_str);
                proof {
                    assert(mv8@.slots[s].data == crate::mini_v8::DataView::Obj(ov0));
                }
                obj.set(mv8, "name", Value::String(name_val));
                let ghost ov1 = ov0.with_set("name"@, Value::String(name_val));
                proof {
                    assert(crate::mini_v8::DataView::Obj(ov1)->Obj_0 == ov1);
                    assert(!ov0.has_name("name"@));
                    assert(mv8@.slots[s].data == crate::mini_v8::DataView::Obj(ov1));
                }
                let msg = e.message();
                let msg_val = mv8.create_string(msg.as_str());
                proof {
                    assert(mv8@.slots[s].data == crate::mini_v8::DataView::Obj(ov1));
                }
                obj.set(mv8, "message", Value::String(msg_val));
                let ghost ov2 = ov1.with_set("message"@, Value::String(msg_val));
                proof {
                    assert(crate::mini_v8::DataView::Obj(ov2)->Obj_0 == ov2);
                    assert(ov1.props.len() == 1 && ov1.props[0].key == "name"@);
                    assert(!ov1.has_name("message"@));
                    assert(mv8@.slots[s].data == crate::mini_v8::DataView::Obj(ov2));
                    assert(obj_of(mv8@.slots[s].data) == ov2);
                    assert(ov2.props.len() == 2);
                    assert(ov2.props[0].key == "name"@);
                    assert(ov2.props[1].key == "message"@);
                    assert(mv8@.data_ok(mv8@.slots[s].data));
                    crate::object::lemma_name_pos_found(ov2, "name"@, 0);
                    crate::object::lemma_name_pos_found(ov2, "message"@, 1);
                    assert(ov2.lookup("name"@) == Value::String(name_val));
                    assert(ov2.lookup("message"@) == Value::String(msg_val));
                }
                Value::Object(obj)
            },
        }
    }
}

/// What the normalization of a non-exception error leaves behind: a fresh
/// object, usable against the context, whose `name` and `message`
/// properties are fresh strings carrying the error's name and message.
pub open spec fn exception_shape(
    pre: CtxView,
    post: CtxView,
    r: Value,
    name: Seq<char>,
    message: Seq<char>,
) -> bool {
    &&& r matches Value::Object(o) && o.handle == (Handle {
        ctx: pre.id,
        slot: pre.slots.len() as usize,
    })
    &&& post.usable(r.spec_handle())
    &&& post.value_ok(r)
    &&& {
        let ov = obj_of(post.slots[pre.slots.len() as int].data);
        &&& ov.lookup("name"@) matches Value::String(s) && post.usable(s.handle) && text_of(
            post.slots[s.handle.slot as int].data,
        ) == name
        &&& ov.lookup("message"@) matches Value::String(s) && post.usable(s.handle) && text_of(
            post.slots[s.handle.slot as int].data,
        ) == message
    }
}

/// The two property keys of an exception object are distinct string keys,
/// neither of them an array index.
proof fn lemma_keys_distinct()
    ensures
        !is_canonical_index("name"@),
        !is_canonical_index("message"@),
        "name"@ != "message"@,
{
    reveal_strlit("name");
    reveal_strlit("message");
    assert('n' as u32 == 110);
    assert('m' as u32 == 109);
    assert(!crate::object::is_digit("name"@[0]));
    assert(!crate::object::is_digit("message"@[0]));
}

} // verus!
