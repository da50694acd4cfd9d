//! The array wrapper: indexed reads and writes against an engine-resident
//! array. Writing past the end extends the array, filling the gap with
//! undefined, as assigning to a fresh index of a JavaScript array does.

use vstd::prelude::*;
use crate::mini_v8::{
    arr_of, kind_same, lemma_data_ok_grow, lemma_slots_view_update, CtxView, DataView, MiniV8,
    SlotData,
};
use crate::object::MAX_ARRAY_INDEX;
use crate::value::{Array, Object, Value};

verus! {

/// The elements after writing at an index: an in-range write replaces the
/// element; a write past the end pads with undefined up to the index, then
/// appends the value.
pub open spec fn arr_with_set(vs: Seq<Value>, index: u32, v: Value) -> Seq<Value> {
    if index < vs.len() {
        vs.update(index as int, v)
    } else {
        vs + Seq::new((index - vs.len()) as nat, |i: int| Value::Undefined).push(v)
    }
}

/// A write keeps every stored element well-placed: afterwards each element
/// is an old element, the written value, or undefined.
proof fn lemma_data_ok_arr_set(pre: CtxView, vs: Seq<Value>, index: u32, v: Value)
    requires
        pre.data_ok(DataView::Arr(vs)),
        pre.value_ok(v),
    ensures
        pre.data_ok(DataView::Arr(arr_with_set(vs, index, v))),
{
    let vs2 = arr_with_set(vs, index, v);
    assert(DataView::Arr(vs)->Arr_0 == vs);
    assert(forall|j: int| 0 <= j < vs.len() ==> pre.value_ok(#[trigger] vs[j]));
    assert forall|i: int| 0 <= i < vs2.len() implies pre.value_ok(#[trigger] vs2[i]) by {
        if index < vs.len() {
            if i != index {
                assert(vs2[i] == vs[i]);
                assert(pre.value_ok(vs[i]));
            }
        } else {
            if i < vs.len() {
                assert(vs2[i] == vs[i]);
                assert(pre.value_ok(vs[i]));
            } else if i < vs2.len() - 1 {
                assert(vs2[i] == Value::Undefined);
            }
        }
    }
}

impl Array {
    /// Consumes the array value and regards it as a plain object.
    pub fn into_object(self) -> (r: Object)
        ensures
            r.handle == self.handle,
    {
        Object { handle: self.handle }
    }

    /// The number of elements in the model's store: everything there is
    /// for a host-created array, the mirrored subset for an engine-imported
    /// one.
    pub fn len(&self, mv8: &MiniV8) -> (r: u32)
        requires
            mv8@.usable(self.handle),
            mv8@.slots[self.handle.slot as int].data is Arr,
            arr_of(mv8@.slots[self.handle.slot as int].data).len() <= u32::MAX,
        ensures
            mv8@.complete_at(self.handle.slot as int) ==> r == arr_of(
                mv8@.slots[self.handle.slot as int].data,
            ).len(),
            r == arr_of(mv8@.slots[self.handle.slot as int].data).len() || !mv8@.complete_at(
                self.handle.slot as int,
            ),
    {
        match &mv8.slots[self.handle.slot].data {
            SlotData::Arr(vs) => vs.len() as u32,
            _ => vstd::pervasive::unreached(),
        }
    }

    /// Reads the element at the index from the model's store, or undefined
    /// when the store ends before it. Exact for a host-created array; on an
    /// engine-imported mirror an index past the mirrored elements may still
    /// be populated engine-side, so only the in-range half is meaningful
    /// there.
    pub fn get(&self, mv8: &MiniV8, index: u32) -> (r: Value)
        requires
            mv8@.usable(self.handle),
            mv8@.slots[self.handle.slot as int].data is Arr,
            mv8@.wf(),
        ensures
            mv8@.complete_at(self.handle.slot as int) ==> r == (if index < arr_of(
                mv8@.slots[self.handle.slot as int].data,
            ).len() {
                arr_of(mv8@.slots[self.handle.slot as int].data)[index as int]
            } else {
                Value::Undefined
            }),
            index < arr_of(mv8@.slots[self.handle.slot as int].data).len() ==> r == arr_of(
                mv8@.slots[self.handle.slot as int].data,
            )[index as int],
            mv8@.value_ok(r),
    {
        let ghost s = self.handle.slot as int;
        proof {
            assert(mv8@.data_ok(mv8@.slots[s].data));
        }
        match &mv8.slots[self.handle.slot].data {
            SlotData::Arr(vs) => {
                if (index as usize) < vs.len() {
                    vs[index as usize]
                } else {
                    Value::Undefined
                }
            },
            _ => vstd::pervasive::unreached(),
        }
    }

    /// Writes the element at the index. JavaScript arrays are bounded by
    /// the greatest array index; an in-range write replaces, a write past
    /// the end extends with undefined in the gap.
    pub fn set(&self, mv8: &mut MiniV8, index: u32, value: Value)
        requires
            old(mv8)@.usable(self.handle),
            old(mv8)@.slots[self.handle.slot as int].data is Arr,
            old(mv8)@.wf(),
            old(mv8)@.value_ok(value),
            index <= MAX_ARRAY_INDEX,
        ensures
            final(mv8)@ == old(mv8)@.with_slot_data(
                self.handle.slot as int,
                DataView::Arr(
                    arr_with_set(arr_of(old(mv8)@.slots[self.handle.slot as int].data), index, value),
                ),
            ),
            final(mv8)@.wf(),
            final(mv8)@.usable(self.handle),
    {
        let s = self.handle.slot;
        let ghost pre = mv8@;
        let ghost pre_slots = mv8.slots@;
        let ghost vs0 = arr_of(pre.slots[s as int].data);
        proof {
            assert(pre.data_ok(pre.slots[s as int].data));
        }
        match &mut mv8.slots[s].data {
            SlotData::Arr(vs) => {
                if (index as usize) < vs.len() {
                    vs[index as usize] = value;
                } else {
                    while vs.len() < index as usize
                        invariant
                            vs@.len() <= index,
                            vs@.len() >= vs0.len(),
                            forall|j: int| 0 <= j < vs0.len() ==> vs@[j] == vs0[j],
                            forall|j: int| vs0.len() <= j < vs@.len() ==> vs@[j] == Value::Undefined,
                        decreases index - vs.len(),
                    {
                        vs.push(Value::Undefined);
                    }
                    vs.push(value);
                }
            },
            _ => {},
        }
        proof {
            lemma_slots_view_update(pre_slots, s as int, mv8.slots@[s as int]);
            assert(mv8@ =~~= pre.with_slot_data(
                s as int,
                DataView::Arr(arr_with_set(vs0, index, value)),
            ));
            lemma_data_ok_arr_set(pre, vs0, index, value);
            lemma_wf_arr_update(pre, s as int, arr_with_set(vs0, index, value));
        }
    }

    /// Appends an element at the end: a write at the current length.
    pub fn push(&self, mv8: &mut MiniV8, value: Value)
        requires
            old(mv8)@.usable(self.handle),
            old(mv8)@.slots[self.handle.slot as int].data is Arr,
            old(mv8)@.wf(),
            old(mv8)@.value_ok(value),
            arr_of(old(mv8)@.slots[self.handle.slot as int].data).len() <= MAX_ARRAY_INDEX,
        ensures
            final(mv8)@ == old(mv8)@.with_slot_data(
                self.handle.slot as int,
                DataView::Arr(arr_of(old(mv8)@.slots[self.handle.slot as int].data).push(value)),
            ),
            final(mv8)@.wf(),
            final(mv8)@.usable(self.handle),
    {
        let s = self.handle.slot;
        let ghost pre = mv8@;
        let ghost pre_slots = mv8.slots@;
        let ghost vs0 = arr_of(pre.slots[s as int].data);
        proof {
            assert(pre.data_ok(pre.slots[s as int].data));
        }
        match &mut mv8.slots[s].data {
            SlotData::Arr(vs) => {
                vs.push(value);
            },
            _ => {},
        }
        proof {
            lemma_slots_view_update(pre_slots, s as int, mv8.slots@[s as int]);
            assert(mv8@ =~~= pre.with_slot_data(s as int, DataView::Arr(vs0.push(value))));
            assert(pre.data_ok(DataView::Arr(vs0.push(value)))) by {
                assert forall|i: int| 0 <= i < vs0.len() + 1 implies pre.value_ok(
                    #[trigger] vs0.push(value)[i],
                ) by {
                    if i < vs0.len() {
                        assert(vs0.push(value)[i] == vs0[i]);
                        assert(pre.value_ok(vs0[i]));
                    }
                }
            }
            lemma_wf_arr_update(pre, s as int, vs0.push(value));
        }
    }

    /// Reads out the model store's elements in order: everything there is
    /// for a host-created array, the mirrored subset for an engine-imported
    /// one.
    pub fn elements(&self, mv8: &MiniV8) -> (r: Vec<Value>)
        requires
            mv8@.usable(self.handle),
            mv8@.slots[self.handle.slot as int].data is Arr,
        ensures
            r@ == arr_of(mv8@.slots[self.handle.slot as int].data),
    {
        let ghost vs0 = arr_of(mv8@.slots[self.handle.slot as int].data);
        match &mv8.slots[self.handle.slot].data {
            SlotData::Arr(vs) => {
                let n = vs.len();
                let mut r: Vec<Value> = Vec::new();
                let mut i: usize = 0;
                while i < n
                    invariant
                        0 <= i <= n,
                        n == vs@.len(),
                        vs@ == vs0,
                        r@.len() == i,
                        forall|j: int| 0 <= j < i ==> r@[j] == vs0[j],
                    decreases n - i,
                {
                    r.push(vs[i]);
                    i = i + 1;
                }
                proof {
                    assert(r@ =~= vs0);
                }
                r
            },
            _ => vstd::pervasive::unreached(),
        }
    }
}

/// Replacing one array slot's elements with well-placed elements keeps the
/// whole context well-formed.
proof fn lemma_wf_arr_update(pre: CtxView, s: int, vs: Seq<Value>)
    requires
        pre.wf(),
        0 <= s < pre.slots.len(),
        pre.slots[s].data is Arr,
        pre.data_ok(DataView::Arr(vs)),
    ensures
        pre.with_slot_data(s, DataView::Arr(vs)).wf(),
{
    let post = pre.with_slot_data(s, DataView::Arr(vs));
    assert forall|i: int| 0 <= i < post.slots.len() implies post.data_ok(
        #[trigger] post.slots[i].data,
    ) by {
        if i == s {
            lemma_data_ok_grow(pre, post, DataView::Arr(vs));
        } else {
            assert(pre.data_ok(pre.slots[i].data));
            lemma_data_ok_grow(pre, post, pre.slots[i].data);
        }
    }
}

} // verus!
