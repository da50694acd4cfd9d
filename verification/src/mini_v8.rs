//! The execution context model: one isolated engine instance, its slot table
//! of engine-resident values, and the reference-count bookkeeping that ties
//! every persistent handle to the context that created it.
//!
//! A slot is allocated whenever a reference value (string, array, function,
//! object) is created; its reference count says how many owning handles the
//! host holds. Cloning a handle increments the count, releasing a handle
//! decrements it, and a count of zero means the engine may reclaim the slot.
//! Handles record the identity of their owning context, so use against a
//! foreign context, or after teardown, is detectable — such misuse is a
//! fatal usage error, never a recoverable one, and every operation that
//! dereferences a handle excludes it by precondition. `is_usable` is the
//! run-time check a caller (or an unverified embedding) makes first.

use vstd::prelude::*;
use crate::object::{ObjView, ObjectData};
use crate::value::{Handle, JsString, Object, Value};

verus! {

/// The engine-side contents of one slot.
#[derive(Debug)]
pub enum SlotData {
    /// An immutable string.
    Text(String),
    /// An array: its elements in order.
    Arr(Vec<Value>),
    /// An ordinary object: its properties.
    Obj(ObjectData),
    /// A function created from a host callback; the payload is the token
    /// under which the embedding registered the callback.
    Func(u64),
}

/// Ghost mirror of `SlotData`.
#[verifier::ext_equal]
pub enum DataView {
    Text(Seq<char>),
    Arr(Seq<Value>),
    Obj(ObjView),
    Func(u64),
}

impl View for SlotData {
    type V = DataView;

    open spec fn view(&self) -> DataView {
        match self {
            SlotData::Text(s) => DataView::Text(s@),
            SlotData::Arr(vs) => DataView::Arr(vs@),
            SlotData::Obj(od) => DataView::Obj(od@),
            SlotData::Func(t) => DataView::Func(*t),
        }
    }
}

/// One slot of the context: a reference count and the stored value.
#[derive(Debug)]
pub struct Slot {
    /// How many owning handles the host holds on this slot. Zero means the
    /// slot has been handed back to the engine's garbage collector.
    pub refs: u64,
    pub data: SlotData,
    /// Whether the stored value is the whole truth about the slot. Slots
    /// the host created hold everything there is; a slot imported from the
    /// engine is a mirror that may lack entries the engine populated on its
    /// own (built-ins, script-created properties), so only positive answers
    /// about its contents are meaningful.
    pub complete: bool,
}

/// Ghost mirror of a `Slot`.
#[verifier::ext_equal]
pub struct SlotView {
    pub refs: u64,
    pub data: DataView,
    pub complete: bool,
}

impl View for Slot {
    type V = SlotView;

    open spec fn view(&self) -> SlotView {
        SlotView { refs: self.refs, data: self.data@, complete: self.complete }
    }
}

/// The view of a whole slot table.
pub open spec fn slots_view(s: Seq<Slot>) -> Seq<SlotView> {
    Seq::new(s.len(), |i: int| s[i]@)
}

/// An isolated JavaScript execution context.
///
/// Slot zero always holds the global object. The scope depth counts the
/// stack of active scopes: depth one is the root scope, and each callback
/// re-entry pushes one more. Teardown clears `alive`, after which every
/// handle derived from this context is permanently unusable.
#[derive(Debug)]
pub struct MiniV8 {
    pub id: u64,
    pub alive: bool,
    pub depth: usize,
    pub slots: Vec<Slot>,
}

/// Ghost mirror of a context.
#[verifier::ext_equal]
pub struct CtxView {
    pub id: u64,
    pub alive: bool,
    pub depth: nat,
    pub slots: Seq<SlotView>,
}

impl View for MiniV8 {
    type V = CtxView;

    open spec fn view(&self) -> CtxView {
        CtxView {
            id: self.id,
            alive: self.alive,
            depth: self.depth as nat,
            slots: slots_view(self.slots@),
        }
    }
}

/// True when the stored value is of the kind the slot data can back.
pub open spec fn kind_matches(d: DataView, v: Value) -> bool {
    match v {
        Value::String(_) => d is Text,
        Value::Array(_) => d is Arr,
        Value::Function(_) => d is Func,
        Value::Object(_) => d is Obj,
        _ => true,
    }
}

/// Two slot contents of the same kind back the same reference values.
pub open spec fn kind_same(d1: DataView, d2: DataView) -> bool {
    &&& d1 is Text <==> d2 is Text
    &&& d1 is Arr <==> d2 is Arr
    &&& d1 is Obj <==> d2 is Obj
    &&& d1 is Func <==> d2 is Func
}

impl CtxView {
    /// The handle names this context and one of its slots.
    pub open spec fn owns(self, h: Handle) -> bool {
        h.ctx == self.id && h.slot < self.slots.len()
    }

    /// The handle's slot still carries at least one owning reference.
    pub open spec fn live(self, h: Handle) -> bool {
        self.owns(h) && self.slots[h.slot as int].refs > 0
    }

    /// The handle may be dereferenced: the context has not been torn down,
    /// the handle belongs to it, and the slot has not been reclaimed.
    pub open spec fn usable(self, h: Handle) -> bool {
        self.alive && self.live(h)
    }

    /// A value the host may hold against this context: reference variants
    /// point at a slot of this context whose contents are of their kind.
    pub open spec fn value_ok(self, v: Value) -> bool {
        v.is_reference() ==> self.owns(v.spec_handle()) && kind_matches(
            self.slots[v.spec_handle().slot as int].data,
            v,
        )
    }

    /// Every value stored inside slot data is itself well-placed.
    pub open spec fn data_ok(self, d: DataView) -> bool {
        match d {
            DataView::Text(_) => true,
            DataView::Func(_) => true,
            DataView::Arr(vs) => forall|i: int|
                0 <= i < vs.len() ==> self.value_ok(#[trigger] vs[i]),
            DataView::Obj(ov) => {
                &&& ov.inv()
                &&& forall|i: int|
                    0 <= i < ov.elems.len() ==> self.value_ok(#[trigger] ov.elems[i].value)
                &&& forall|i: int|
                    0 <= i < ov.props.len() ==> self.value_ok(#[trigger] ov.props[i].value)
            },
        }
    }

    /// Well-formedness of the whole context: the global object sits in slot
    /// zero, and every stored value is well-placed.
    pub open spec fn wf(self) -> bool {
        &&& self.slots.len() >= 1
        &&& self.slots[0].data is Obj
        &&& forall|i: int| 0 <= i < self.slots.len() ==> self.data_ok(#[trigger] self.slots[i].data)
    }

    /// The context after allocating a fresh, fully known slot with one
    /// owning reference.
    pub open spec fn after_alloc(self, d: DataView) -> CtxView {
        CtxView { slots: self.slots.push(SlotView { refs: 1, data: d, complete: true }), ..self }
    }

    /// The context after importing an engine-created value: a fresh slot
    /// with one owning reference whose mirrored contents may be incomplete.
    pub open spec fn after_import(self, d: DataView) -> CtxView {
        CtxView { slots: self.slots.push(SlotView { refs: 1, data: d, complete: false }), ..self }
    }

    /// Whether a handle's slot holds the whole truth about its value, so
    /// that negative answers about its contents are meaningful.
    pub open spec fn complete_at(self, i: int) -> bool {
        self.slots[i].complete
    }

    /// The handle an allocation hands back.
    pub open spec fn fresh_handle(self) -> Handle {
        Handle { ctx: self.id, slot: self.slots.len() as usize }
    }

    /// The context with one slot's reference count replaced.
    pub open spec fn with_refs(self, i: int, refs: u64) -> CtxView {
        CtxView {
            slots: self.slots.update(
                i,
                SlotView { refs, data: self.slots[i].data, complete: self.slots[i].complete },
            ),
            ..self
        }
    }

    /// The context after cloning a handle: its slot gains one reference.
    pub open spec fn after_clone(self, h: Handle) -> CtxView {
        self.with_refs(h.slot as int, (self.slots[h.slot as int].refs + 1) as u64)
    }

    /// The context after releasing a handle: its slot loses one reference.
    pub open spec fn after_drop(self, h: Handle) -> CtxView {
        self.with_refs(h.slot as int, (self.slots[h.slot as int].refs - 1) as u64)
    }

    /// The context after teardown.
    pub open spec fn after_teardown(self) -> CtxView {
        CtxView { alive: false, ..self }
    }

    /// The context with one slot's data replaced, its reference count and
    /// completeness kept.
    pub open spec fn with_slot_data(self, i: int, d: DataView) -> CtxView {
        CtxView {
            slots: self.slots.update(
                i,
                SlotView { refs: self.slots[i].refs, data: d, complete: self.slots[i].complete },
            ),
            ..self
        }
    }

    /// The later context keeps every earlier slot's contents, under the
    /// same identity, liveness and scope depth: all a conversion may do to
    /// the context it runs against is allocate fresh slots and take
    /// additional owning references on existing ones.
    pub open spec fn extends(self, pre: CtxView) -> bool {
        &&& self.id == pre.id
        &&& self.alive == pre.alive
        &&& self.depth == pre.depth
        &&& self.slots.len() >= pre.slots.len()
        &&& forall|i: int|
            0 <= i < pre.slots.len() ==> (#[trigger] self.slots[i]).data == pre.slots[i].data
                && self.slots[i].refs >= pre.slots[i].refs && self.slots[i].complete
                == pre.slots[i].complete
    }

    /// A value the host may hand around freely against this context:
    /// well-placed, and its handle, if it has one, still usable.
    pub open spec fn value_usable(self, v: Value) -> bool {
        self.value_ok(v) && (v.is_reference() ==> self.usable(v.spec_handle()))
    }

    /// Every value of the list usable.
    pub open spec fn values_usable(self, vs: Seq<Value>) -> bool {
        forall|i: int| 0 <= i < vs.len() ==> self.value_usable(#[trigger] vs[i])
    }
}

/// Growing the context keeps a well-placed value well-placed.
pub proof fn lemma_value_ok_extends(pre: CtxView, post: CtxView, v: Value)
    requires
        post.extends(pre),
        pre.value_ok(v),
    ensures
        post.value_ok(v),
{
    if v.is_reference() {
        let i = v.spec_handle().slot as int;
        assert(post.slots[i].data == pre.slots[i].data);
    }
}

/// Growing the context keeps a usable value usable.
pub proof fn lemma_value_usable_extends(pre: CtxView, post: CtxView, v: Value)
    requires
        post.extends(pre),
        pre.value_usable(v),
    ensures
        post.value_usable(v),
{
    if v.is_reference() {
        let i = v.spec_handle().slot as int;
        assert(post.slots[i].data == pre.slots[i].data);
        assert(post.slots[i].refs >= pre.slots[i].refs);
    }
}

/// Growing the context keeps usable values usable.
pub proof fn lemma_values_usable_extends(pre: CtxView, post: CtxView, vs: Seq<Value>)
    requires
        post.extends(pre),
        pre.values_usable(vs),
    ensures
        post.values_usable(vs),
{
    assert forall|i: int| 0 <= i < vs.len() implies post.value_usable(#[trigger] vs[i]) by {
        lemma_value_usable_extends(pre, post, vs[i]);
    }
}

/// Context extension is transitive.
pub proof fn lemma_extends_trans(a: CtxView, b: CtxView, c: CtxView)
    requires
        b.extends(a),
        c.extends(b),
    ensures
        c.extends(a),
{
    assert forall|i: int|
        0 <= i < a.slots.len() implies (#[trigger] c.slots[i]).data == a.slots[i].data
        && c.slots[i].refs >= a.slots[i].refs by {
        assert(b.slots[i].data == a.slots[i].data);
        assert(b.slots[i].refs >= a.slots[i].refs);
    }
}

/// The object contents of slot data known to be an object.
pub open spec fn obj_of(d: DataView) -> ObjView {
    match d {
        DataView::Obj(ov) => ov,
        _ => ObjView { elems: Seq::empty(), props: Seq::empty() },
    }
}

/// The characters of slot data known to be a string.
pub open spec fn text_of(d: DataView) -> Seq<char> {
    match d {
        DataView::Text(s) => s,
        _ => Seq::empty(),
    }
}

/// The elements of slot data known to be an array.
pub open spec fn arr_of(d: DataView) -> Seq<Value> {
    match d {
        DataView::Arr(vs) => vs,
        _ => Seq::empty(),
    }
}

/// The callback token of slot data known to be a function.
pub open spec fn func_of(d: DataView) -> u64 {
    match d {
        DataView::Func(t) => t,
        _ => 0,
    }
}

pub(crate) proof fn lemma_slots_view_push(s: Seq<Slot>, x: Slot)
    ensures
        slots_view(s.push(x)) == slots_view(s).push(x@),
{
    assert(slots_view(s.push(x)) =~= slots_view(s).push(x@));
}

pub(crate) proof fn lemma_slots_view_update(s: Seq<Slot>, i: int, x: Slot)
    requires
        0 <= i < s.len(),
    ensures
        slots_view(s.update(i, x)) == slots_view(s).update(i, x@),
{
    assert(slots_view(s.update(i, x)) =~= slots_view(s).update(i, x@));
}

/// Well-placedness of slot data is kept by any state change that keeps the
/// identity, keeps every slot's kind, and does not shrink the table.
pub(crate) proof fn lemma_data_ok_grow(pre: CtxView, post: CtxView, d: DataView)
    requires
        pre.data_ok(d),
        post.id == pre.id,
        post.slots.len() >= pre.slots.len(),
        forall|i: int|
            0 <= i < pre.slots.len() ==> kind_same(pre.slots[i].data, #[trigger] post.slots[i].data),
    ensures
        post.data_ok(d),
{
    match d {
        DataView::Arr(vs) => {
            assert forall|i: int| 0 <= i < vs.len() implies post.value_ok(#[trigger] vs[i]) by {
                assert(pre.value_ok(vs[i]));
            }
        },
        DataView::Obj(ov) => {
            assert forall|i: int| 0 <= i < ov.elems.len() implies post.value_ok(
                #[trigger] ov.elems[i].value,
            ) by {
                assert(pre.value_ok(ov.elems[i].value));
            }
            assert forall|i: int| 0 <= i < ov.props.len() implies post.value_ok(
                #[trigger] ov.props[i].value,
            ) by {
                assert(pre.value_ok(ov.props[i].value));
            }
        },
        _ => {},
    }
}

/// Allocation preserves well-formedness whenever the fresh slot's own
/// contents are well-placed in the grown context.
proof fn lemma_wf_alloc(pre: CtxView, d: DataView)
    requires
        pre.wf(),
        pre.after_alloc(d).data_ok(d),
    ensures
        pre.after_alloc(d).wf(),
{
    let post = pre.after_alloc(d);
    assert forall|i: int| 0 <= i < post.slots.len() implies post.data_ok(
        #[trigger] post.slots[i].data,
    ) by {
        if i < pre.slots.len() {
            assert(pre.data_ok(pre.slots[i].data));
            lemma_data_ok_grow(pre, post, pre.slots[i].data);
        }
    }
}

/// Importing preserves well-formedness whenever the mirrored slot's own
/// contents are well-placed in the grown context.
proof fn lemma_wf_import(pre: CtxView, d: DataView)
    requires
        pre.wf(),
        pre.after_import(d).data_ok(d),
    ensures
        pre.after_import(d).wf(),
{
    let post = pre.after_import(d);
    assert forall|i: int| 0 <= i < post.slots.len() implies post.data_ok(
        #[trigger] post.slots[i].data,
    ) by {
        if i < pre.slots.len() {
            assert(pre.data_ok(pre.slots[i].data));
            lemma_data_ok_grow(pre, post, pre.slots[i].data);
        }
    }
}

/// A state change that keeps every slot's data, the identity, and the table
/// length preserves well-formedness.
proof fn lemma_wf_same_data(pre: CtxView, post: CtxView)
    requires
        pre.wf(),
        post.id == pre.id,
        post.slots.len() == pre.slots.len(),
        forall|i: int| 0 <= i < pre.slots.len() ==> #[trigger] post.slots[i].data == pre.slots[i].data,
    ensures
        post.wf(),
{
    assert forall|i: int| 0 <= i < post.slots.len() implies post.data_ok(
        #[trigger] post.slots[i].data,
    ) by {
        assert(pre.data_ok(pre.slots[i].data));
        lemma_data_ok_grow(pre, post, pre.slots[i].data);
    }
}

impl MiniV8 {
    /// Creates a fresh execution context under the given identity. The
    /// embedding must hand every context a distinct identity; the
    /// cross-context checks compare nothing else. The context starts alive,
    /// in its root scope, with the global object in slot zero. The global
    /// is the engine's own object — it carries built-ins the model cannot
    /// see — so its slot starts as an incomplete mirror: the model tracks
    /// what the host puts there, and only positive property answers about
    /// it are meaningful.
    pub fn new(id: u64) -> (ctx: MiniV8)
        ensures
            ctx@.id == id,
            ctx@.alive,
            ctx@.depth == 1,
            ctx@.slots =~= seq![
                SlotView {
                    refs: 1,
                    data: DataView::Obj(ObjView { elems: Seq::empty(), props: Seq::empty() }),
                    complete: false,
                },
            ],
            ctx@.wf(),
    {
        let mut slots: Vec<Slot> = Vec::new();
        slots.push(
            Slot {
                refs: 1,
                data: SlotData::Obj(ObjectData { elems: Vec::new(), props: Vec::new() }),
                complete: false,
            },
        );
        let ctx = MiniV8 { id, alive: true, depth: 1, slots };
        proof {
            assert(ctx@.slots =~~= seq![
                SlotView {
                    refs: 1,
                    data: DataView::Obj(ObjView { elems: Seq::empty(), props: Seq::empty() }),
                    complete: false,
                },
            ]);
        }
        ctx
    }

    /// Returns the global JavaScript object.
    pub fn global(&self) -> (r: Object)
        requires
            self@.alive,
        ensures
            r.handle == (Handle { ctx: self@.id, slot: 0 }),
            self@.wf() ==> self@.value_ok(Value::Object(r)),
    {
        Object { handle: Handle { ctx: self.id, slot: 0 } }
    }

    /// How deep the stack of active scopes currently is: one when only the
    /// root scope is open, more while callback re-entries are running.
    pub fn scope_depth(&self) -> (d: usize)
        ensures
            d == self@.depth,
    {
        self.depth
    }

    /// Enters the scope of a callback invoked from inside the engine. The
    /// engine forbids opening a sibling top-level scope while one is open;
    /// re-entry instead extends the stack of active scopes by one.
    pub fn push_scope(&mut self)
        requires
            old(self)@.alive,
            old(self)@.depth < usize::MAX,
        ensures
            final(self)@ == (CtxView { depth: (old(self)@.depth + 1) as nat, ..old(self)@ }),
    {
        self.depth = self.depth + 1;
    }

    /// Leaves a callback scope, returning to the enclosing one. The root
    /// scope is never popped.
    pub fn pop_scope(&mut self)
        requires
            old(self)@.alive,
            old(self)@.depth >= 2,
        ensures
            final(self)@ == (CtxView { depth: (old(self)@.depth - 1) as nat, ..old(self)@ }),
    {
        self.depth = self.depth - 1;
    }

    /// The run-time guard on handle use: true exactly when the handle was
    /// created by this context, the context has not been torn down, and the
    /// slot still has an owning reference. Dereferencing a handle for which
    /// this is false is a fatal usage error, which this check makes
    /// detectable.
    pub fn is_usable(&self, h: Handle) -> (r: bool)
        ensures
            r == self@.usable(h),
    {
        self.alive && h.ctx == self.id && h.slot < self.slots.len() && self.slots[h.slot].refs > 0
    }

    /// Clones a handle: the engine-level reference count of its slot is
    /// incremented, and the returned handle aliases the same slot.
    pub fn clone_handle(&mut self, h: Handle) -> (r: Handle)
        requires
            old(self)@.usable(h),
            old(self)@.slots[h.slot as int].refs < u64::MAX,
        ensures
            r == h,
            final(self)@ == old(self)@.after_clone(h),
            final(self)@.usable(h),
            old(self)@.wf() ==> final(self)@.wf(),
    {
        let ghost pre = self@;
        let ghost pre_slots = self.slots@;
        let refs = self.slots[h.slot].refs;
        self.slots[h.slot].refs = refs + 1;
        proof {
            lemma_slots_view_update(pre_slots, h.slot as int, self.slots@[h.slot as int]);
            assert(self@ == pre.after_clone(h));
            if pre.wf() {
                lemma_wf_same_data(pre, self@);
            }
        }
        h
    }

    /// Releases a handle: the engine-level reference count of its slot is
    /// decremented; at zero the engine reclaims the slot. Each handle must
    /// be released exactly once, against its own context, before teardown.
    pub fn drop_handle(&mut self, h: Handle)
        requires
            old(self)@.usable(h),
        ensures
            final(self)@ == old(self)@.after_drop(h),
            old(self)@.wf() ==> final(self)@.wf(),
    {
        let ghost pre = self@;
        let ghost pre_slots = self.slots@;
        let refs = self.slots[h.slot].refs;
        self.slots[h.slot].refs = refs - 1;
        proof {
            lemma_slots_view_update(pre_slots, h.slot as int, self.slots@[h.slot as int]);
            assert(self@ == pre.after_drop(h));
            if pre.wf() {
                lemma_wf_same_data(pre, self@);
            }
        }
    }

    /// Tears the context down. Every handle derived from it becomes
    /// permanently unusable; the embedding releases the engine isolate.
    pub fn teardown(&mut self)
        requires
            old(self)@.alive,
        ensures
            final(self)@ == old(self)@.after_teardown(),
            old(self)@.wf() ==> final(self)@.wf(),
    {
        self.alive = false;
        proof {
            if old(self)@.wf() {
                lemma_wf_same_data(old(self)@, self@);
            }
        }
    }

    /// Creates and returns a string resident in this context.
    pub fn create_string(&mut self, value: &str) -> (r: JsString)
        requires
            old(self)@.alive,
        ensures
            final(self)@ == old(self)@.after_alloc(DataView::Text(value@)),
            r.handle == old(self)@.fresh_handle(),
            r.handle.slot == old(self)@.slots.len(),
            final(self)@.usable(r.handle),
            final(self)@.value_ok(Value::String(r)),
            old(self)@.wf() ==> final(self)@.wf(),
    {
        let ghost pre = self@;
        let ghost pre_slots = self.slots@;
        let handle = Handle { ctx: self.id, slot: self.slots.len() };
        let text = value.to_owned();
        self.slots.push(Slot { refs: 1, data: SlotData::Text(text), complete: true });
        proof {
            lemma_slots_view_push(pre_slots, self.slots@[pre_slots.len() as int]);
            assert(self@ == pre.after_alloc(DataView::Text(value@)));
            if pre.wf() {
                lemma_wf_alloc(pre, DataView::Text(value@));
            }
        }
        JsString { handle }
    }

    /// Creates and returns an empty array resident in this context.
    pub fn create_array(&mut self) -> (r: crate::value::Array)
        requires
            old(self)@.alive,
        ensures
            final(self)@ == old(self)@.after_alloc(DataView::Arr(Seq::empty())),
            r.handle == old(self)@.fresh_handle(),
            r.handle.slot == old(self)@.slots.len(),
            final(self)@.usable(r.handle),
            final(self)@.value_ok(Value::Array(r)),
            old(self)@.wf() ==> final(self)@.wf(),
    {
        let ghost pre = self@;
        let ghost pre_slots = self.slots@;
        let handle = Handle { ctx: self.id, slot: self.slots.len() };
        self.slots.push(Slot { refs: 1, data: SlotData::Arr(Vec::new()), complete: true });
        proof {
            lemma_slots_view_push(pre_slots, self.slots@[pre_slots.len() as int]);
            assert(self@ == pre.after_alloc(DataView::Arr(Seq::empty())));
            if pre.wf() {
                lemma_wf_alloc(pre, DataView::Arr(Seq::empty()));
            }
        }
        crate::value::Array { handle }
    }

    /// Creates and returns an empty object resident in this context.
    pub fn create_object(&mut self) -> (r: Object)
        requires
            old(self)@.alive,
        ensures
            final(self)@ == old(self)@.after_alloc(
                DataView::Obj(ObjView { elems: Seq::empty(), props: Seq::empty() }),
            ),
            r.handle == old(self)@.fresh_handle(),
            r.handle.slot == old(self)@.slots.len(),
            final(self)@.usable(r.handle),
            final(self)@.value_ok(Value::Object(r)),
            old(self)@.wf() ==> final(self)@.wf(),
    {
        let ghost pre = self@;
        let ghost pre_slots = self.slots@;
        let handle = Handle { ctx: self.id, slot: self.slots.len() };
        self.slots.push(
            Slot {
                refs: 1,
                data: SlotData::Obj(ObjectData { elems: Vec::new(), props: Vec::new() }),
                complete: true,
            },
        );
        proof {
            lemma_slots_view_push(pre_slots, self.slots@[pre_slots.len() as int]);
            assert(self@ =~~= pre.after_alloc(
                DataView::Obj(ObjView { elems: Seq::empty(), props: Seq::empty() }),
            ));
            if pre.wf() {
                lemma_wf_alloc(pre, DataView::Obj(ObjView { elems: Seq::empty(), props: Seq::empty() }));
            }
        }
        Object { handle }
    }

    /// Creates a function value backed by a host callback. The token names
    /// the callback in the embedding's registry; invoking the function from
    /// the engine marshals through the callback bridge under this token.
    pub fn create_function(&mut self, token: u64) -> (r: crate::value::Function)
        requires
            old(self)@.alive,
        ensures
            final(self)@ == old(self)@.after_alloc(DataView::Func(token)),
            r.handle == old(self)@.fresh_handle(),
            r.handle.slot == old(self)@.slots.len(),
            final(self)@.usable(r.handle),
            final(self)@.value_ok(Value::Function(r)),
            old(self)@.wf() ==> final(self)@.wf(),
    {
        let ghost pre = self@;
        let ghost pre_slots = self.slots@;
        let handle = Handle { ctx: self.id, slot: self.slots.len() };
        self.slots.push(Slot { refs: 1, data: SlotData::Func(token), complete: true });
        proof {
            lemma_slots_view_push(pre_slots, self.slots@[pre_slots.len() as int]);
            assert(self@ == pre.after_alloc(DataView::Func(token)));
            if pre.wf() {
                lemma_wf_alloc(pre, DataView::Func(token));
            }
        }
        crate::value::Function { handle }
    }

    /// Imports an engine-created object the model cannot see inside: a
    /// fresh slot whose mirror starts empty and incomplete. The embedding
    /// keeps the mirror in step with the writes it makes; reads the
    /// embedding needs exactly must go through the engine.
    pub fn import_object(&mut self) -> (r: Object)
        requires
            old(self)@.alive,
        ensures
            final(self)@ == old(self)@.after_import(
                DataView::Obj(ObjView { elems: Seq::empty(), props: Seq::empty() }),
            ),
            r.handle == old(self)@.fresh_handle(),
            r.handle.slot == old(self)@.slots.len(),
            final(self)@.usable(r.handle),
            final(self)@.value_ok(Value::Object(r)),
            old(self)@.wf() ==> final(self)@.wf(),
    {
        let ghost pre = self@;
        let ghost pre_slots = self.slots@;
        let handle = Handle { ctx: self.id, slot: self.slots.len() };
        self.slots.push(
            Slot {
                refs: 1,
                data: SlotData::Obj(ObjectData { elems: Vec::new(), props: Vec::new() }),
                complete: false,
            },
        );
        proof {
            lemma_slots_view_push(pre_slots, self.slots@[pre_slots.len() as int]);
            assert(self@ =~~= pre.after_import(
                DataView::Obj(ObjView { elems: Seq::empty(), props: Seq::empty() }),
            ));
            if pre.wf() {
                lemma_wf_import(pre, DataView::Obj(ObjView { elems: Seq::empty(), props: Seq::empty() }));
            }
        }
        Object { handle }
    }

    /// Imports an engine-created array as an incomplete, initially empty
    /// mirror.
    pub fn import_array(&mut self) -> (r: crate::value::Array)
        requires
            old(self)@.alive,
        ensures
            final(self)@ == old(self)@.after_import(DataView::Arr(Seq::empty())),
            r.handle == old(self)@.fresh_handle(),
            r.handle.slot == old(self)@.slots.len(),
            final(self)@.usable(r.handle),
            final(self)@.value_ok(Value::Array(r)),
            old(self)@.wf() ==> final(self)@.wf(),
    {
        let ghost pre = self@;
        let ghost pre_slots = self.slots@;
        let handle = Handle { ctx: self.id, slot: self.slots.len() };
        self.slots.push(Slot { refs: 1, data: SlotData::Arr(Vec::new()), complete: false });
        proof {
            lemma_slots_view_push(pre_slots, self.slots@[pre_slots.len() as int]);
            assert(self@ =~~= pre.after_import(DataView::Arr(Seq::empty())));
            if pre.wf() {
                lemma_wf_import(pre, DataView::Arr(Seq::empty()));
            }
        }
        crate::value::Array { handle }
    }

    /// Imports an engine-created function the host has no callback for: an
    /// incomplete mirror under the reserved token zero. Calling it goes
    /// through the engine.
    pub fn import_function(&mut self) -> (r: crate::value::Function)
        requires
            old(self)@.alive,
        ensures
            final(self)@ == old(self)@.after_import(DataView::Func(0)),
            r.handle == old(self)@.fresh_handle(),
            r.handle.slot == old(self)@.slots.len(),
            final(self)@.usable(r.handle),
            final(self)@.value_ok(Value::Function(r)),
            old(self)@.wf() ==> final(self)@.wf(),
    {
        let ghost pre = self@;
        let ghost pre_slots = self.slots@;
        let handle = Handle { ctx: self.id, slot: self.slots.len() };
        self.slots.push(Slot { refs: 1, data: SlotData::Func(0), complete: false });
        proof {
            lemma_slots_view_push(pre_slots, self.slots@[pre_slots.len() as int]);
            assert(self@ =~~= pre.after_import(DataView::Func(0)));
            if pre.wf() {
                lemma_wf_import(pre, DataView::Func(0));
            }
        }
        crate::value::Function { handle }
    }

    /// Whether a handle's slot holds the whole truth about its value: true
    /// of everything the host created, false of engine-imported mirrors,
    /// whose contents only support positive answers.
    pub fn is_complete(&self, h: Handle) -> (r: bool)
        requires
            self@.owns(h),
        ensures
            r == self@.complete_at(h.slot as int),
    {
        self.slots[h.slot].complete
    }

    /// The run-time check that a value may be handed around against this
    /// context: scalars always may; a reference value must hold a usable
    /// handle whose slot is of its kind.
    pub fn value_backed(&self, v: &Value) -> (r: bool)
        ensures
            r == self@.value_usable(*v),
    {
        match v {
            Value::String(s) => self.is_usable(s.handle) && matches!(
                &self.slots[s.handle.slot].data,
                SlotData::Text(_)
            ),
            Value::Array(a) => self.is_usable(a.handle) && matches!(
                &self.slots[a.handle.slot].data,
                SlotData::Arr(_)
            ),
            Value::Function(f) => self.is_usable(f.handle) && matches!(
                &self.slots[f.handle.slot].data,
                SlotData::Func(_)
            ),
            Value::Object(o) => self.is_usable(o.handle) && matches!(
                &self.slots[o.handle.slot].data,
                SlotData::Obj(_)
            ),
            _ => true,
        }
    }

    /// Takes ownership of a value read out of engine-held storage: a
    /// reference value's slot gains one owning reference — it was reachable
    /// engine-side, so the slot exists even with no host reference left —
    /// and a scalar passes through. The count saturates rather than wrap.
    pub fn adopt_value(&mut self, v: Value) -> (r: Value)
        requires
            old(self)@.alive,
            old(self)@.value_ok(v),
        ensures
            r == v,
            final(self)@.value_usable(v),
            !v.is_reference() ==> final(self)@ == old(self)@,
            v.is_reference() ==> final(self)@ == old(self)@.with_refs(
                v.spec_handle().slot as int,
                if old(self)@.slots[v.spec_handle().slot as int].refs < u64::MAX {
                    (old(self)@.slots[v.spec_handle().slot as int].refs + 1) as u64
                } else {
                    u64::MAX
                },
            ),
            final(self)@.extends(old(self)@),
            old(self)@.wf() ==> final(self)@.wf(),
    {
        let ghost pre = self@;
        let ghost pre_slots = self.slots@;
        let h = match &v {
            Value::String(s) => s.handle,
            Value::Array(a) => a.handle,
            Value::Function(f) => f.handle,
            Value::Object(o) => o.handle,
            _ => {
                return v;
            },
        };
        let refs = self.slots[h.slot].refs;
        self.slots[h.slot].refs = if refs < u64::MAX {
            refs + 1
        } else {
            refs
        };
        proof {
            lemma_slots_view_update(pre_slots, h.slot as int, self.slots@[h.slot as int]);
            assert(self@ =~~= pre.with_refs(
                h.slot as int,
                if pre.slots[h.slot as int].refs < u64::MAX {
                    (pre.slots[h.slot as int].refs + 1) as u64
                } else {
                    u64::MAX
                },
            ));
            if pre.wf() {
                lemma_wf_same_data(pre, self@);
            }
        }
        v
    }
}

/// Reference semantics of handle cloning: after cloning a handle and then
/// releasing one of the two aliases, the context is exactly as it started,
/// and the surviving alias — which names the very same slot, so anything
/// reached through one alias is reached through the other — is still
/// usable.
pub proof fn lemma_clone_then_drop_restores(ctx: CtxView, h: Handle)
    requires
        ctx.usable(h),
        ctx.slots[h.slot as int].refs < u64::MAX,
    ensures
        ctx.after_clone(h).usable(h),
        ctx.after_clone(h).after_drop(h) == ctx,
{
    let mid = ctx.after_clone(h);
    let fin = mid.after_drop(h);
    assert(fin.slots =~= ctx.slots);
}

/// Cross-context misuse is detectable: a handle created by one context is
/// never usable against a context of a different identity.
pub proof fn lemma_cross_context_rejected(a: CtxView, b: CtxView, h: Handle)
    requires
        h.ctx == a.id,
        a.id != b.id,
    ensures
        !b.usable(h),
{
}

/// Use after teardown is detectable: after a context is torn down, no
/// handle whatsoever is usable against it.
pub proof fn lemma_teardown_invalidates(ctx: CtxView, h: Handle)
    ensures
        !ctx.after_teardown().usable(h),
{
}

} // verus!
