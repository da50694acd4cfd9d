//! The callback bridge: the marshaling protocol that lets a host closure be
//! invoked from inside the engine. The engine hands over a receiver and
//! argument descriptors; the bridge enters a callback scope — extending the
//! stack of active scopes rather than opening a forbidden sibling top-level
//! scope — decodes them against the current context, runs the closure, and
//! hands back either the encoded result or, for an error, an encoded
//! engine-visible exception value, so script code can catch it. Host panics
//! are not representable here: a verified callback body cannot panic, and
//! an unverified closure that panics must be caught at the boundary by the
//! embedding and turned into process termination, never resumed.

use vstd::prelude::*;
use crate::descriptor::{decode, encode, encode_spec, decode_spec, tag_known_spec, Descriptor};
use crate::error::{exception_shape, error_message, error_name, Error};
use crate::conversion::Values;
use crate::mini_v8::{CtxView, MiniV8};
use crate::value::Value;

verus! {

/// Everything a callback invocation carries: the receiver the function was
/// called on, and the argument list.
#[derive(Debug)]
pub struct Invocation {
    /// The value of the call's `this` binding.
    pub this: Value,
    /// The arguments of the call.
    pub args: Values,
}

/// What the bridge hands back to the engine: a value to return, or an
/// exception value to throw.
#[derive(Clone, Copy, PartialEq, Eq, Structural, Debug)]
pub enum CallbackOutcome {
    /// The callback succeeded; the engine returns this descriptor.
    Return(Descriptor),
    /// The callback failed; the engine throws this descriptor.
    Throw(Descriptor),
}

/// The decoded argument list of a callback.
pub open spec fn decoded_args(args: Seq<Descriptor>, id: u64) -> Seq<Value> {
    Seq::new(args.len(), |i: int| decode_spec(args[i], id))
}

/// An invocation value carrying exactly the decoded receiver and arguments.
pub open spec fn invocation_matches(
    inv: Invocation,
    recv: Descriptor,
    args: Seq<Descriptor>,
    id: u64,
) -> bool {
    inv.this == decode_spec(recv, id) && inv.args.0@ == decoded_args(args, id)
}

/// How a bridge outcome reflects one possible closure result: a success is
/// the encoded value; a thrown bridge exception passes through encoded; any
/// other error is normalized into a fresh exception object carrying its
/// name and message, allocated at the first free slot.
pub open spec fn outcome_matches(
    pre: CtxView,
    post: CtxView,
    r: CallbackOutcome,
    res: Result<Value, Error>,
) -> bool {
    match res {
        Ok(v) => r == CallbackOutcome::Return(encode_spec(v)),
        Err(e) => r matches CallbackOutcome::Throw(d) && (e matches Error::Value(ev) ==> d
            == encode_spec(ev)) && (!(e matches Error::Value(_)) ==> exists|exc: Value|
            #[trigger] exception_shape(pre, post, exc, error_name(e), error_message(e)) && d
                == encode_spec(exc)),
    }
}

/// Runs a host closure for the engine: the whole re-entrant marshaling
/// path, from descriptors in to a descriptor out.
///
/// The closure sees the invocation exactly as decoded; whatever result it
/// can produce, the outcome the engine receives is that result encoded, an
/// error becoming a catchable exception rather than a host-level failure.
/// The scope stack is one deeper while the closure runs and restored
/// afterwards.
pub fn dispatch_callback<F: Fn(Invocation) -> Result<Value, Error>>(
    mv8: &mut MiniV8,
    f: F,
    recv: Descriptor,
    args: Vec<Descriptor>,
) -> (r: CallbackOutcome)
    requires
        old(mv8)@.alive,
        old(mv8)@.wf(),
        1 <= old(mv8)@.depth < usize::MAX,
        tag_known_spec(recv.tag),
        forall|i: int| 0 <= i < args@.len() ==> tag_known_spec(#[trigger] args@[i].tag),
        forall|inv: Invocation|
            invocation_matches(inv, recv, args@, old(mv8)@.id) ==> call_requires(f, (inv,)),
    ensures
        final(mv8)@.wf(),
        final(mv8)@.extends(old(mv8)@),
        final(mv8)@.depth == old(mv8)@.depth,
        exists|inv: Invocation, res: Result<Value, Error>|
            invocation_matches(inv, recv, args@, old(mv8)@.id) && #[trigger] call_ensures(
                f,
                (inv,),
                res,
            ) && outcome_matches(old(mv8)@, final(mv8)@, r, res),
{
    let ghost pre = mv8@;
    let id = mv8.id;
    mv8.push_scope();
    let this = decode(recv, id);
    let n = args.len();
    let mut argv: Vec<Value> = Vec::new();
    let mut i: usize = 0;
    while i < n
        invariant
            0 <= i <= n,
            n == args@.len(),
            argv@.len() == i,
            forall|j: int| 0 <= j < i ==> argv@[j] == decode_spec(args@[j], id),
        decreases n - i,
    {
        argv.push(decode(args[i], id));
        i = i + 1;
    }
    proof {
        assert(argv@ =~= decoded_args(args@, id));
    }
    let inv = Invocation { this, args: Values(argv) };
    proof {
        assert(invocation_matches(inv, recv, args@, pre.id));
    }
    let ghost ginv = inv;
    let res = f(inv);
    let ghost gres = res;
    match res {
        Ok(v) => {
            let d = encode(&v);
            mv8.pop_scope();
            proof {
                assert(call_ensures(f, (ginv,), gres));
                assert(outcome_matches(pre, mv8@, CallbackOutcome::Return(d), gres));
            }
            CallbackOutcome::Return(d)
        },
        Err(e) => {
            let ghost ge = e;
            let exc = e.to_value(mv8);
            let d = encode(&exc);
            mv8.pop_scope();
            proof {
                assert(call_ensures(f, (ginv,), gres));
                if !(ge matches Error::Value(_)) {
                    assert(exception_shape(pre, mv8@, exc, error_name(ge), error_message(ge)));
                }
                assert(outcome_matches(pre, mv8@, CallbackOutcome::Throw(d), gres));
            }
            CallbackOutcome::Throw(d)
        },
    }
}

impl crate::value::Function {
    /// Calls the host callback backing this function directly from host
    /// code, with the given receiver and arguments: the same marshaling as
    /// an engine-driven call, minus the boundary decoding, so both paths
    /// feed the closure the identical logical invocation. Calling an
    /// engine-created function is the embedding's work, through the engine.
    pub fn call_with<F: Fn(Invocation) -> Result<Value, Error>>(
        &self,
        mv8: &mut MiniV8,
        f: F,
        this: Value,
        args: Values,
    ) -> (r: CallbackOutcome)
        requires
            old(mv8)@.alive,
            old(mv8)@.wf(),
            1 <= old(mv8)@.depth < usize::MAX,
            old(mv8)@.usable(self.handle),
            forall|inv: Invocation|
                inv.this == this && inv.args.0@ == args.0@ ==> call_requires(f, (inv,)),
        ensures
            final(mv8)@.wf(),
            final(mv8)@.extends(old(mv8)@),
            final(mv8)@.depth == old(mv8)@.depth,
            exists|inv: Invocation, res: Result<Value, Error>|
                inv.this == this && inv.args.0@ == args.0@ && #[trigger] call_ensures(
                    f,
                    (inv,),
                    res,
                ) && outcome_matches(old(mv8)@, final(mv8)@, r, res),
    {
        let ghost pre = mv8@;
        mv8.push_scope();
        let inv = Invocation { this, args };
        let ghost ginv = inv;
        proof {
            assert(ginv.this == this && ginv.args.0@ == args.0@);
            assert(call_requires(f, (ginv,)));
        }
        let res = f(inv);
        let ghost gres = res;
        match res {
            Ok(v) => {
                let d = encode(&v);
                mv8.pop_scope();
                proof {
                    assert(call_ensures(f, (ginv,), gres));
                    assert(outcome_matches(pre, mv8@, CallbackOutcome::Return(d), gres));
                }
                CallbackOutcome::Return(d)
            },
            Err(e) => {
                let ghost ge = e;
                let exc = e.to_value(mv8);
                let d = encode(&exc);
                mv8.pop_scope();
                proof {
                    assert(call_ensures(f, (ginv,), gres));
                    if !(ge matches Error::Value(_)) {
                        assert(exception_shape(pre, mv8@, exc, error_name(ge), error_message(ge)));
                    }
                    assert(outcome_matches(pre, mv8@, CallbackOutcome::Throw(d), gres));
                }
                CallbackOutcome::Throw(d)
            },
        }
    }
}

/// Calling a registered callback through the engine and calling the closure
/// directly agree: when every result the closure can produce on the decoded
/// invocation is the one the direct call produced, the outcome the engine
/// received reflects exactly that result.
pub proof fn lemma_dispatch_agrees_with_direct_call<F: Fn(Invocation) -> Result<Value, Error>>(
    f: F,
    pre: CtxView,
    post: CtxView,
    r: CallbackOutcome,
    recv: Descriptor,
    args: Seq<Descriptor>,
    direct: Result<Value, Error>,
)
    requires
        exists|inv: Invocation, res: Result<Value, Error>|
            invocation_matches(inv, recv, args, pre.id) && #[trigger] call_ensures(f, (inv,), res)
                && outcome_matches(pre, post, r, res),
        forall|inv: Invocation, res: Result<Value, Error>|
            invocation_matches(inv, recv, args, pre.id) && #[trigger] call_ensures(f, (inv,), res)
                ==> res == direct,
    ensures
        outcome_matches(pre, post, r, direct),
{
    let (inv, res): (Invocation, Result<Value, Error>) = choose|
        inv: Invocation,
        res: Result<Value, Error>,
    |
        invocation_matches(inv, recv, args, pre.id) && #[trigger] call_ensures(f, (inv,), res)
            && outcome_matches(pre, post, r, res);
    assert(res == direct);
}

} // verus!
