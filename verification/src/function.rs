//! The function wrapper. A function value is backed by a host callback
//! registered in the embedding under a token; invoking it goes through the
//! callback bridge, which decodes the engine's arguments, runs the callback,
//! and encodes the result or raises the error.

use vstd::prelude::*;
use crate::mini_v8::{func_of, MiniV8, SlotData};
use crate::value::{Function, Object};

verus! {

impl Function {
    /// Consumes the function value and regards it as a plain object.
    pub fn into_object(self) -> (r: Object)
        ensures
            r.handle == self.handle,
    {
        Object { handle: self.handle }
    }

    /// The token under which the embedding registered the backing callback.
    pub fn callback_token(&self, mv8: &MiniV8) -> (r: u64)
        requires
            mv8@.usable(self.handle),
            mv8@.slots[self.handle.slot as int].data is Func,
        ensures
            r == func_of(mv8@.slots[self.handle.slot as int].data),
    {
        match &mv8.slots[self.handle.slot].data {
            SlotData::Func(t) => *t,
            _ => vstd::pervasive::unreached(),
        }
    }
}

} // verus!
