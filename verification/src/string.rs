//! The string wrapper: materializing an engine-resident string back into a
//! host string.

use vstd::prelude::*;
use crate::mini_v8::{text_of, MiniV8, SlotData};
use crate::value::JsString;

verus! {

impl JsString {
    /// Reads the engine-resident string into a host string.
    pub fn to_string(&self, mv8: &MiniV8) -> (r: String)
        requires
            mv8@.usable(self.handle),
            mv8@.slots[self.handle.slot as int].data is Text,
        ensures
            r@ == text_of(mv8@.slots[self.handle.slot as int].data),
    {
        match &mv8.slots[self.handle.slot].data {
            SlotData::Text(s) => s.clone(),
            _ => vstd::pervasive::unreached(),
        }
    }
}

} // verus!
