//! Storage model for JavaScript objects: a set of properties keyed by
//! strings, enumerated in the engine's own-property order — keys that are
//! canonical array indexes come first in ascending numeric order, the
//! remaining string keys follow in insertion order.

use vstd::prelude::*;
use crate::mini_v8::{
    kind_same, lemma_data_ok_grow, lemma_slots_view_update, lemma_value_usable_extends, obj_of,
    CtxView, DataView, MiniV8, SlotData,
};
use crate::value::{Object, Value};

verus! {

/// A property whose key is a canonical array index.
#[derive(Clone, Copy, PartialEq, Eq, Structural, Debug)]
pub struct ElemEntry {
    pub index: u32,
    pub value: crate::value::Value,
}

/// A property whose key is a string that is not a canonical array index.
#[derive(Debug)]
pub struct PropEntry {
    pub key: String,
    pub value: crate::value::Value,
}

/// Ghost mirror of a `PropEntry`: the key as a sequence of characters.
#[verifier::ext_equal]
pub struct PropView {
    pub key: Seq<char>,
    pub value: crate::value::Value,
}

impl View for PropEntry {
    type V = PropView;

    open spec fn view(&self) -> PropView {
        PropView { key: self.key@, value: self.value }
    }
}

/// The stored contents of one JavaScript object: index-keyed properties,
/// kept sorted by index, then string-keyed properties in insertion order.
#[derive(Debug)]
pub struct ObjectData {
    pub elems: Vec<ElemEntry>,
    pub props: Vec<PropEntry>,
}

/// Ghost mirror of an `ObjectData`.
#[verifier::ext_equal]
pub struct ObjView {
    pub elems: Seq<ElemEntry>,
    pub props: Seq<PropView>,
}

/// The view of a whole property list.
pub open spec fn props_view(ps: Seq<PropEntry>) -> Seq<PropView> {
    Seq::new(ps.len(), |i: int| ps[i]@)
}

impl View for ObjectData {
    type V = ObjView;

    open spec fn view(&self) -> ObjView {
        ObjView { elems: self.elems@, props: props_view(self.props@) }
    }
}

impl ObjView {
    /// True when the key appears among the index-keyed properties.
    pub open spec fn has_index(self, index: u32) -> bool {
        exists|i: int| 0 <= i < self.elems.len() && self.elems[i].index == index
    }

    /// True when the key appears among the string-keyed properties.
    pub open spec fn has_name(self, key: Seq<char>) -> bool {
        exists|i: int| 0 <= i < self.props.len() && self.props[i].key == key
    }

    /// The value stored under an index key.
    pub open spec fn index_value(self, index: u32) -> crate::value::Value {
        self.elems[choose|i: int| 0 <= i < self.elems.len() && self.elems[i].index == index].value
    }

    /// The value stored under a string key.
    pub open spec fn name_value(self, key: Seq<char>) -> crate::value::Value {
        self.props[choose|i: int| 0 <= i < self.props.len() && self.props[i].key == key].value
    }

    /// The well-formedness of stored object contents: index keys strictly
    /// ascending (hence unique), string keys unique, and no string key that
    /// is itself a canonical array index (those live with the index keys).
    pub open spec fn inv(self) -> bool {
        &&& forall|i: int, j: int|
            0 <= i < j < self.elems.len() ==> self.elems[i].index < self.elems[j].index
        &&& forall|i: int, j: int|
            0 <= i < j < self.props.len() ==> self.props[i].key != self.props[j].key
        &&& forall|i: int| 0 <= i < self.props.len() ==> !is_canonical_index(#[trigger] self.props[i].key)
    }

    /// An object with no properties at all.
    pub open spec fn is_empty(self) -> bool {
        self.elems.len() == 0 && self.props.len() == 0
    }

    /// The position of an index key among the index-keyed properties.
    pub open spec fn index_pos(self, index: u32) -> int {
        choose|i: int| 0 <= i < self.elems.len() && self.elems[i].index == index
    }

    /// The position of a string key among the string-keyed properties.
    pub open spec fn name_pos(self, key: Seq<char>) -> int {
        choose|i: int| 0 <= i < self.props.len() && self.props[i].key == key
    }

    /// Whether the object has a property under the key, whichever side of
    /// the store the key belongs to.
    pub open spec fn has_key(self, key: Seq<char>) -> bool {
        if is_canonical_index(key) {
            self.has_index(digits_val(key) as u32)
        } else {
            self.has_name(key)
        }
    }

    /// The value a property read returns: the stored value, or undefined
    /// when no property exists under the key.
    pub open spec fn lookup(self, key: Seq<char>) -> Value {
        if is_canonical_index(key) {
            let idx = digits_val(key) as u32;
            if self.has_index(idx) {
                self.index_value(idx)
            } else {
                Value::Undefined
            }
        } else {
            if self.has_name(key) {
                self.name_value(key)
            } else {
                Value::Undefined
            }
        }
    }

    /// The object after a property write: an existing property is replaced
    /// in place; a fresh index key enters the index-keyed side at its sorted
    /// position; a fresh string key is appended in insertion order.
    pub open spec fn with_set(self, key: Seq<char>, v: Value) -> ObjView {
        if is_canonical_index(key) {
            let idx = digits_val(key) as u32;
            let e = ElemEntry { index: idx, value: v };
            if self.has_index(idx) {
                ObjView { elems: self.elems.update(self.index_pos(idx), e), ..self }
            } else {
                ObjView { elems: self.elems.insert(count_below(self.elems, idx), e), ..self }
            }
        } else {
            if self.has_name(key) {
                ObjView {
                    props: self.props.update(self.name_pos(key), PropView { key, value: v }),
                    ..self
                }
            } else {
                ObjView { props: self.props.push(PropView { key, value: v }), ..self }
            }
        }
    }

    /// The object after a property removal: without the property if one
    /// exists under the key, unchanged otherwise.
    pub open spec fn with_remove(self, key: Seq<char>) -> ObjView {
        if is_canonical_index(key) {
            let idx = digits_val(key) as u32;
            if self.has_index(idx) {
                ObjView { elems: self.elems.remove(self.index_pos(idx)), ..self }
            } else {
                self
            }
        } else {
            if self.has_name(key) {
                ObjView { props: self.props.remove(self.name_pos(key)), ..self }
            } else {
                self
            }
        }
    }

    /// The keys in enumeration order: index keys first, ascending, in their
    /// canonical decimal form, then string keys in insertion order.
    pub open spec fn keys_seq(self) -> Seq<Seq<char>> {
        Seq::new(
            self.elems.len() + self.props.len(),
            |i: int|
                if i < self.elems.len() {
                    decimal_seq(self.elems[i].index as int)
                } else {
                    self.props[i - self.elems.len()].key
                },
        )
    }
}

/// How many index-keyed properties sit below the given index; in a sorted
/// store this is where a fresh property of that index belongs.
pub open spec fn count_below(elems: Seq<ElemEntry>, idx: u32) -> int
    decreases elems.len(),
{
    if elems.len() == 0 {
        0
    } else {
        count_below(elems.drop_last(), idx) + if elems.last().index < idx {
            1int
        } else {
            0int
        }
    }
}

/// True for the characters `'0'` through `'9'`.
pub open spec fn is_digit(c: char) -> bool {
    48 <= c as u32 <= 57
}

/// True when every character of the sequence is a decimal digit.
pub open spec fn all_digits(s: Seq<char>) -> bool {
    forall|i: int| 0 <= i < s.len() ==> is_digit(#[trigger] s[i])
}

/// The numeric value of a sequence of decimal digits.
pub open spec fn digits_val(s: Seq<char>) -> int
    decreases s.len(),
{
    if s.len() == 0 {
        0
    } else {
        digits_val(s.drop_last()) * 10 + (s.last() as u32 - 48)
    }
}

/// The greatest key that counts as an array index. JavaScript treats a
/// property key as an array index when it is the canonical decimal form of
/// an integer below 2^32 - 1.
pub const MAX_ARRAY_INDEX: u32 = 0xFFFF_FFFE;

/// True when the string is the canonical decimal form of an array index:
/// nonempty, all digits, no leading zero (except `"0"` itself), and value
/// at most `MAX_ARRAY_INDEX`.
pub open spec fn is_canonical_index(s: Seq<char>) -> bool {
    &&& s.len() > 0
    &&& all_digits(s)
    &&& (s.len() > 1 ==> s[0] != '0')
    &&& digits_val(s) <= MAX_ARRAY_INDEX
}

/// Ten to the given power.
pub open spec fn ten_pow(n: nat) -> int
    decreases n,
{
    if n == 0 {
        1
    } else {
        10 * ten_pow((n - 1) as nat)
    }
}

/// A digit sequence never reaches ten to its length.
pub proof fn lemma_digits_val_bound(s: Seq<char>)
    requires
        all_digits(s),
    ensures
        0 <= digits_val(s) < ten_pow(s.len()),
    decreases s.len(),
{
    if s.len() > 0 {
        assert(all_digits(s.drop_last())) by {
            assert(forall|i: int| 0 <= i < s.len() - 1 ==> s.drop_last()[i] == s[i]);
        }
        lemma_digits_val_bound(s.drop_last());
        assert(is_digit(s.last()));
    }
}

/// A digit sequence without a leading zero reaches ten to one less than its
/// length, provided it has at least two digits.
pub proof fn lemma_digits_val_lower(s: Seq<char>)
    requires
        all_digits(s),
        s.len() >= 2,
        s[0] != '0',
    ensures
        digits_val(s) >= ten_pow((s.len() - 1) as nat),
    decreases s.len(),
{
    let p = s.drop_last();
    assert(all_digits(p)) by {
        assert(forall|i: int| 0 <= i < s.len() - 1 ==> p[i] == s[i]);
    }
    if s.len() == 2 {
        lemma_digits_val_single(p);
        assert(p[0] == s[0]);
        assert(is_digit(s[0]));
        assert(s[0] as u32 != 48) by {
            if s[0] as u32 == 48 {
                vstd::utf8::char_u32_cast(s[0], 48);
                assert('0' as u32 == 48);
                vstd::utf8::char_u32_cast('0', 48);
            }
        }
        assert(digits_val(p) >= 1);
        assert(ten_pow(0) == 1);
        assert(ten_pow(1) == 10);
    } else {
        assert(p[0] == s[0]);
        lemma_digits_val_lower(p);
        assert(ten_pow((s.len() - 1) as nat) == 10 * ten_pow((s.len() - 2) as nat));
    }
    assert(is_digit(s.last()));
    assert(s.last() as u32 >= 48);
    assert(digits_val(s) == digits_val(p) * 10 + (s.last() as u32 - 48));
}

/// The value of a single digit.
proof fn lemma_digits_val_single(s: Seq<char>)
    requires
        s.len() == 1,
    ensures
        digits_val(s) == s[0] as u32 - 48,
{
    reveal_with_fuel(digits_val, 2);
    assert(s.drop_last() =~= Seq::<char>::empty());
    assert(s.last() == s[0]);
}

/// The canonical decimal digit for a value below ten.
pub open spec fn digit_char(d: int) -> char {
    if d == 0 {
        '0'
    } else if d == 1 {
        '1'
    } else if d == 2 {
        '2'
    } else if d == 3 {
        '3'
    } else if d == 4 {
        '4'
    } else if d == 5 {
        '5'
    } else if d == 6 {
        '6'
    } else if d == 7 {
        '7'
    } else if d == 8 {
        '8'
    } else {
        '9'
    }
}

/// The canonical decimal form of a nonnegative integer.
pub open spec fn decimal_seq(n: int) -> Seq<char>
    decreases n,
{
    if n < 0 {
        Seq::empty()
    } else if n < 10 {
        seq![digit_char(n)]
    } else {
        decimal_seq(n / 10).push(digit_char(n % 10))
    }
}

/// A one-character string for a decimal digit.
fn digit_str(d: u32) -> (r: &'static str)
    requires
        d < 10,
    ensures
        r@ == seq![digit_char(d as int)],
{
    proof {
        reveal_strlit("0");
        reveal_strlit("1");
        reveal_strlit("2");
        reveal_strlit("3");
        reveal_strlit("4");
        reveal_strlit("5");
        reveal_strlit("6");
        reveal_strlit("7");
        reveal_strlit("8");
        reveal_strlit("9");
    }
    let r = match d {
        0 => "0",
        1 => "1",
        2 => "2",
        3 => "3",
        4 => "4",
        5 => "5",
        6 => "6",
        7 => "7",
        8 => "8",
        _ => "9",
    };
    proof {
        assert(r@ =~= seq![digit_char(d as int)]);
    }
    r
}

/// Writes a nonnegative integer in canonical decimal form.
pub fn decimal_u64(n: u64) -> (r: String)
    ensures
        r@ == decimal_seq(n as int),
    decreases n,
{
    if n < 10 {
        let mut s = String::new();
        s.append(digit_str(n as u32));
        proof {
            assert(s@ =~= decimal_seq(n as int));
        }
        s
    } else {
        let mut s = decimal_u64(n / 10);
        s.append(digit_str((n % 10) as u32));
        proof {
            assert(s@ =~= decimal_seq(n as int));
        }
        s
    }
}

/// Writes an array index in canonical decimal form.
pub fn decimal_u32(n: u32) -> (r: String)
    ensures
        r@ == decimal_seq(n as int),
{
    decimal_u64(n as u64)
}

/// The decimal digits have consecutive character codes.
proof fn lemma_digit_char_val(d: int)
    requires
        0 <= d < 10,
    ensures
        is_digit(digit_char(d)),
        digit_char(d) as u32 == 48 + d,
{
    assert('0' as u32 == 48);
    assert('1' as u32 == 49);
    assert('2' as u32 == 50);
    assert('3' as u32 == 51);
    assert('4' as u32 == 52);
    assert('5' as u32 == 53);
    assert('6' as u32 == 54);
    assert('7' as u32 == 55);
    assert('8' as u32 == 56);
    assert('9' as u32 == 57);
}

/// The canonical decimal form of an integer reads back as that integer.
pub proof fn lemma_decimal_val(n: int)
    requires
        n >= 0,
    ensures
        all_digits(decimal_seq(n)),
        decimal_seq(n).len() >= 1,
        decimal_seq(n)[0] != '0' || n < 10,
        digits_val(decimal_seq(n)) == n,
    decreases n,
{
    if n < 10 {
        let s = decimal_seq(n);
        assert(s =~= seq![digit_char(n)]);
        lemma_digit_char_val(n);
        lemma_digits_val_single(s);
        if n >= 1 {
            assert(s[0] != '0') by {
                assert('0' as u32 == 48);
            }
        }
    } else {
        lemma_decimal_val(n / 10);
        lemma_digit_char_val(n % 10);
        let p = decimal_seq(n / 10);
        let s = decimal_seq(n);
        assert(s == p.push(digit_char(n % 10)));
        assert(s.drop_last() =~= p);
        assert(s.last() == digit_char(n % 10));
        assert(is_digit(s.last()));
        assert(all_digits(s)) by {
            assert(forall|i: int| 0 <= i < s.len() - 1 ==> s[i] == p[i]);
        }
        assert(s[0] == p[0]);
        assert(p[0] != '0') by {
            if n / 10 < 10 {
                assert(p == seq![digit_char(n / 10)]);
                assert(n / 10 >= 1);
                lemma_digit_char_val(n / 10);
                assert('0' as u32 == 48);
            }
        }
        assert(digits_val(s) == digits_val(p) * 10 + (digit_char(n % 10) as u32 - 48));
        assert(digit_char(n % 10) as u32 - 48 == n % 10);
    }
}

/// The canonical decimal form of an array index is a canonical index key.
pub proof fn lemma_decimal_is_canonical(n: u32)
    requires
        n <= MAX_ARRAY_INDEX,
    ensures
        is_canonical_index(decimal_seq(n as int)),
{
    lemma_decimal_val(n as int);
}

/// Reads a property key as an array index: `Some` exactly when the key is
/// the canonical decimal form of an integer at most `MAX_ARRAY_INDEX`.
pub fn parse_index(s: &str) -> (r: Option<u32>)
    ensures
        r is Some <==> is_canonical_index(s@),
        r matches Some(v) ==> v as int == digits_val(s@),
{
    let n = s.unicode_len();
    if n == 0 {
        return None;
    }
    if n > 10 {
        proof {
            if is_canonical_index(s@) {
                lemma_digits_val_lower(s@);
                lemma_ten_pow_big(s@.len());
            }
        }
        return None;
    }
    let mut i: usize = 0;
    let mut acc: u64 = 0;
    while i < n
        invariant
            0 <= i <= n,
            n == s@.len(),
            n <= 10,
            all_digits(s@.take(i as int)),
            acc == digits_val(s@.take(i as int)),
            acc < 10000000000,
        decreases n - i,
    {
        let c = s.get_char(i);
        let d = c as u32;
        if d < 48 || d > 57 {
            proof {
                assert(!is_digit(s@[i as int]));
            }
            return None;
        }
        acc = acc * 10 + (d - 48) as u64;
        proof {
            let t = s@.take(i + 1);
            assert(t.drop_last() =~= s@.take(i as int));
            assert(t.last() == s@[i as int]);
            assert(all_digits(t)) by {
                assert(forall|j: int| 0 <= j < t.len() - 1 ==> t[j] == s@.take(i as int)[j]);
            }
            assert(acc == digits_val(t));
            lemma_digits_val_bound(t);
            lemma_ten_pow_mono(t.len() as nat, 10);
            lemma_ten_pow_values();
        }
        i = i + 1;
    }
    proof {
        assert(s@.take(n as int) =~= s@);
    }
    if n > 1 {
        let c0 = s.get_char(0);
        if c0 == '0' {
            return None;
        }
    }
    if acc > MAX_ARRAY_INDEX as u64 {
        return None;
    }
    Some(acc as u32)
}

/// Ten to any power of at least ten exceeds the greatest array index.
proof fn lemma_ten_pow_big(n: nat)
    requires
        n >= 11,
    ensures
        ten_pow((n - 1) as nat) > MAX_ARRAY_INDEX,
    decreases n,
{
    lemma_ten_pow_mono(10, (n - 1) as nat);
    lemma_ten_pow_values();
}

/// The first few powers of ten, by value.
proof fn lemma_ten_pow_values()
    ensures
        ten_pow(9) == 1000000000,
        ten_pow(10) == 10000000000,
{
    assert(ten_pow(0) == 1);
    assert(ten_pow(1) == 10);
    assert(ten_pow(2) == 100);
    assert(ten_pow(3) == 1000);
    assert(ten_pow(4) == 10000);
    assert(ten_pow(5) == 100000);
    assert(ten_pow(6) == 1000000);
    assert(ten_pow(7) == 10000000);
    assert(ten_pow(8) == 100000000);
    assert(ten_pow(9) == 1000000000);
    assert(ten_pow(10) == 10000000000);
}

/// Powers of ten grow with the exponent.
proof fn lemma_ten_pow_mono(a: nat, b: nat)
    requires
        a <= b,
    ensures
        0 < ten_pow(a) <= ten_pow(b),
    decreases b,
{
    if a < b {
        lemma_ten_pow_mono(a, (b - 1) as nat);
    } else {
        lemma_ten_pow_pos(a);
    }
}

proof fn lemma_ten_pow_pos(a: nat)
    ensures
        ten_pow(a) > 0,
    decreases a,
{
    if a > 0 {
        lemma_ten_pow_pos((a - 1) as nat);
    }
}

/// In a sorted store, the entries below an index form a prefix whose length
/// `count_below` gives.
pub proof fn lemma_count_below_sorted(elems: Seq<ElemEntry>, idx: u32)
    requires
        forall|i: int, j: int| 0 <= i < j < elems.len() ==> elems[i].index < elems[j].index,
    ensures
        0 <= count_below(elems, idx) <= elems.len(),
        forall|j: int| 0 <= j < count_below(elems, idx) ==> elems[j].index < idx,
        forall|j: int| count_below(elems, idx) <= j < elems.len() ==> elems[j].index >= idx,
    decreases elems.len(),
{
    if elems.len() > 0 {
        let p = elems.drop_last();
        assert(forall|i: int, j: int| 0 <= i < j < p.len() ==> p[i].index < p[j].index) by {
            assert(forall|i: int| 0 <= i < p.len() ==> p[i] == elems[i]);
        }
        lemma_count_below_sorted(p, idx);
        let c = count_below(p, idx);
        if elems.last().index < idx {
            assert(c == p.len()) by {
                if c < p.len() {
                    assert(p[c].index >= idx);
                    assert(p[c] == elems[c]);
                    assert(elems[c].index < elems[elems.len() - 1].index);
                }
            }
        } else {
            assert forall|j: int| count_below(elems, idx) <= j < elems.len() implies elems[j].index
                >= idx by {
                if j < elems.len() - 1 {
                    assert(p[j] == elems[j]);
                }
            }
        }
        assert(forall|j: int| 0 <= j < p.len() && p[j].index < idx ==> elems[j].index < idx);
    }
}

/// A position holding an index key is the position the store's own
/// selection function names, and the store has that key.
proof fn lemma_index_pos_found(ov: ObjView, idx: u32, pos: int)
    requires
        ov.inv(),
        0 <= pos < ov.elems.len(),
        ov.elems[pos].index == idx,
    ensures
        ov.has_index(idx),
        ov.index_pos(idx) == pos,
        ov.index_value(idx) == ov.elems[pos].value,
{
    assert(ov.has_index(idx));
    let w = ov.index_pos(idx);
    assert(0 <= w < ov.elems.len() && ov.elems[w].index == idx);
    if w < pos {
        assert(ov.elems[w].index < ov.elems[pos].index);
    }
    if pos < w {
        assert(ov.elems[pos].index < ov.elems[w].index);
    }
}

/// A position holding a string key is the position the store's own
/// selection function names, and the store has that key.
pub(crate) proof fn lemma_name_pos_found(ov: ObjView, key: Seq<char>, pos: int)
    requires
        ov.inv(),
        0 <= pos < ov.props.len(),
        ov.props[pos].key == key,
    ensures
        ov.has_name(key),
        ov.name_pos(key) == pos,
        ov.name_value(key) == ov.props[pos].value,
{
    assert(ov.has_name(key));
    let w = ov.name_pos(key);
    assert(0 <= w < ov.props.len() && ov.props[w].key == key);
    if w != pos {
        assert(ov.props[w].key != ov.props[pos].key);
    }
}

/// A property write keeps the stored contents well-placed: the store's
/// shape invariant survives, and the stored values are the old ones plus
/// the written one.
proof fn lemma_data_ok_with_set(pre: CtxView, ov: ObjView, key: Seq<char>, v: Value)
    requires
        pre.data_ok(DataView::Obj(ov)),
        pre.value_ok(v),
    ensures
        pre.data_ok(DataView::Obj(ov.with_set(key, v))),
{
    let ov2 = ov.with_set(key, v);
    if is_canonical_index(key) {
        let idx = digits_val(key) as u32;
        let e = ElemEntry { index: idx, value: v };
        if ov.has_index(idx) {
            let p = ov.index_pos(idx);
            assert(0 <= p < ov.elems.len() && ov.elems[p].index == idx);
            let es = ov.elems.update(p, e);
            assert(forall|i: int| 0 <= i < es.len() ==> es[i].index == ov.elems[i].index);
            assert(forall|i: int|
                0 <= i < es.len() ==> es[i].value == ov.elems[i].value || es[i].value == v);
        } else {
            let c = count_below(ov.elems, idx);
            lemma_count_below_sorted(ov.elems, idx);
            let es = ov.elems.insert(c, e);
            ov.elems.insert_ensures(c, e);
            assert forall|i: int, j: int| 0 <= i < j < es.len() implies es[i].index
                < es[j].index by {
                assert forall|k: int| c <= k < ov.elems.len() implies ov.elems[k].index > idx by {
                    assert(ov.elems[k].index >= idx);
                    if ov.elems[k].index == idx {
                        assert(ov.has_index(idx));
                    }
                }
                if i < c && j < c {
                } else if i < c && j == c {
                } else if i < c && j > c {
                } else if i == c {
                    assert(es[j] == ov.elems[j - 1]);
                } else {
                    assert(es[i] == ov.elems[i - 1]);
                    assert(es[j] == ov.elems[j - 1]);
                }
            }
            assert forall|i: int| 0 <= i < es.len() implies pre.value_ok(
                #[trigger] es[i].value,
            ) by {
                if i < c {
                    assert(es[i] == ov.elems[i]);
                    assert(pre.value_ok(ov.elems[i].value));
                } else if i == c {
                } else {
                    assert(es[i] == ov.elems[i - 1]);
                    assert(pre.value_ok(ov.elems[i - 1].value));
                }
            }
        }
    } else {
        if ov.has_name(key) {
            let p = ov.name_pos(key);
            assert(0 <= p < ov.props.len() && ov.props[p].key == key);
            let ps = ov.props.update(p, PropView { key, value: v });
            assert(forall|i: int| 0 <= i < ps.len() ==> ps[i].key == ov.props[i].key);
            assert(forall|i: int|
                0 <= i < ps.len() ==> ps[i].value == ov.props[i].value || ps[i].value == v);
        } else {
            let ps = ov.props.push(PropView { key, value: v });
            assert(forall|i: int| 0 <= i < ps.len() - 1 ==> ps[i] == ov.props[i]);
            assert(ps[ps.len() - 1].key == key);
        }
    }
}

/// A property removal keeps the stored contents well-placed.
proof fn lemma_data_ok_with_remove(pre: CtxView, ov: ObjView, key: Seq<char>)
    requires
        pre.data_ok(DataView::Obj(ov)),
    ensures
        pre.data_ok(DataView::Obj(ov.with_remove(key))),
        !ov.with_remove(key).has_key(key),
{
    let ov2 = ov.with_remove(key);
    if is_canonical_index(key) {
        let idx = digits_val(key) as u32;
        if ov.has_index(idx) {
            let p = ov.index_pos(idx);
            assert(0 <= p < ov.elems.len() && ov.elems[p].index == idx);
            let es = ov.elems.remove(p);
            ov.elems.remove_ensures(p);
            assert forall|i: int, j: int| 0 <= i < j < es.len() implies es[i].index
                < es[j].index by {
                if j < p {
                } else if i < p {
                    assert(es[j] == ov.elems[j + 1]);
                } else {
                    assert(es[i] == ov.elems[i + 1]);
                    assert(es[j] == ov.elems[j + 1]);
                }
            }
            assert forall|i: int| 0 <= i < es.len() implies pre.value_ok(
                #[trigger] es[i].value,
            ) by {
                if i < p {
                    assert(es[i] == ov.elems[i]);
                    assert(pre.value_ok(ov.elems[i].value));
                } else {
                    assert(es[i] == ov.elems[i + 1]);
                    assert(pre.value_ok(ov.elems[i + 1].value));
                }
            }
            assert forall|i: int| 0 <= i < es.len() implies #[trigger] es[i].index != idx by {
                if i < p {
                    lemma_index_pos_found(ov, idx, p);
                    if es[i].index == idx {
                        lemma_index_pos_found(ov, idx, i);
                    }
                } else {
                    assert(es[i] == ov.elems[i + 1]);
                    if es[i].index == idx {
                        lemma_index_pos_found(ov, idx, i + 1);
                    }
                }
            }
        }
    } else {
        if ov.has_name(key) {
            let p = ov.name_pos(key);
            assert(0 <= p < ov.props.len() && ov.props[p].key == key);
            let ps = ov.props.remove(p);
            ov.props.remove_ensures(p);
            assert forall|i: int, j: int| 0 <= i < j < ps.len() implies ps[i].key != ps[j].key by {
                if j < p {
                } else if i < p {
                    assert(ps[j] == ov.props[j + 1]);
                } else {
                    assert(ps[i] == ov.props[i + 1]);
                    assert(ps[j] == ov.props[j + 1]);
                }
            }
            assert forall|i: int| 0 <= i < ps.len() implies !is_canonical_index(
                #[trigger] ps[i].key,
            ) && ps[i].key != key by {
                if i < p {
                    if ps[i].key == key {
                        lemma_name_pos_found(ov, key, i);
                        lemma_name_pos_found(ov, key, p);
                    }
                } else {
                    assert(ps[i] == ov.props[i + 1]);
                    if ps[i].key == key {
                        lemma_name_pos_found(ov, key, i + 1);
                        lemma_name_pos_found(ov, key, p);
                    }
                }
            }
            assert forall|i: int| 0 <= i < ps.len() implies pre.value_ok(
                #[trigger] ps[i].value,
            ) by {
                if i < p {
                    assert(ps[i] == ov.props[i]);
                    assert(pre.value_ok(ov.props[i].value));
                } else {
                    assert(ps[i] == ov.props[i + 1]);
                    assert(pre.value_ok(ov.props[i + 1].value));
                }
            }
        }
    }
}

/// The store after a sequence of property writes, first to last.
pub open spec fn with_set_all(ov: ObjView, pairs: Seq<(Seq<char>, Value)>) -> ObjView
    decreases pairs.len(),
{
    if pairs.len() == 0 {
        ov
    } else {
        with_set_all(ov.with_set(pairs[0].0, pairs[0].1), pairs.drop_first())
    }
}

/// Appending one more write to a sequence of writes performs it last.
pub proof fn lemma_with_set_all_push(
    ov: ObjView,
    pairs: Seq<(Seq<char>, Value)>,
    p: (Seq<char>, Value),
)
    ensures
        with_set_all(ov, pairs.push(p)) == with_set_all(ov, pairs).with_set(p.0, p.1),
    decreases pairs.len(),
{
    let ap = pairs.push(p);
    assert(ap.len() == pairs.len() + 1);
    if pairs.len() == 0 {
        assert(ap[0] == p);
        assert(ap.drop_first() =~= Seq::<(Seq<char>, Value)>::empty());
        assert(with_set_all(ov, ap) == with_set_all(ov.with_set(ap[0].0, ap[0].1), ap.drop_first()));
        assert(with_set_all(ov.with_set(ap[0].0, ap[0].1), ap.drop_first()) == ov.with_set(
            p.0,
            p.1,
        ));
        assert(with_set_all(ov, pairs) == ov);
    } else {
        assert(ap[0] == pairs[0]);
        assert(ap.drop_first() =~= pairs.drop_first().push(p));
        assert(with_set_all(ov, ap) == with_set_all(ov.with_set(ap[0].0, ap[0].1), ap.drop_first()));
        lemma_with_set_all_push(ov.with_set(pairs[0].0, pairs[0].1), pairs.drop_first(), p);
        assert(with_set_all(ov, pairs) == with_set_all(
            ov.with_set(pairs[0].0, pairs[0].1),
            pairs.drop_first(),
        ));
    }
}

/// The ghost key-value pairs of a host pair list.
pub open spec fn pairs_view(ps: Seq<(String, Value)>) -> Seq<(Seq<char>, Value)> {
    Seq::new(ps.len(), |i: int| (ps[i].0@, ps[i].1))
}

impl MiniV8 {
    /// Creates an object filled with the given keys and values, written in
    /// order: a thin wrapper around `create_object` and `Object::set`.
    pub fn create_object_from(&mut self, pairs: Vec<(String, Value)>) -> (r: Object)
        requires
            old(self)@.alive,
            old(self)@.wf(),
            forall|i: int|
                0 <= i < pairs@.len() ==> old(self)@.value_usable((#[trigger] pairs@[i]).1),
        ensures
            final(self)@.wf(),
            final(self)@.extends(old(self)@),
            r.handle.ctx == old(self)@.id,
            r.handle.slot == old(self)@.slots.len(),
            final(self)@.usable(r.handle),
            final(self)@.slots[r.handle.slot as int].data == DataView::Obj(
                with_set_all(
                    ObjView { elems: Seq::empty(), props: Seq::empty() },
                    pairs_view(pairs@),
                ),
            ),
    {
        let ghost orig = self@;
        let obj = self.create_object();
        let ghost s = obj.handle.slot as int;
        let ghost ov0 = ObjView { elems: Seq::empty(), props: Seq::empty() };
        proof {
            assert(DataView::Obj(ov0)->Obj_0 == ov0);
            assert(self@.slots[s].data == DataView::Obj(ov0));
            assert(pairs_view(pairs@).take(0) =~= Seq::<(Seq<char>, Value)>::empty());
        }
        let n = pairs.len();
        let mut i: usize = 0;
        while i < n
            invariant
                0 <= i <= n,
                n == pairs@.len(),
                s == obj.handle.slot as int,
                obj.handle.slot == orig.slots.len(),
                obj.handle.ctx == orig.id,
                self@.wf(),
                self@.alive,
                self@.extends(orig),
                self@.usable(obj.handle),
                self@.slots[s].data == DataView::Obj(
                    with_set_all(ov0, pairs_view(pairs@).take(i as int)),
                ),
            decreases n - i,
        {
            let ghost step = self@;
            let ghost ovi = with_set_all(ov0, pairs_view(pairs@).take(i as int));
            let value = pairs[i].1;
            proof {
                assert(orig.value_usable(pairs@[i as int].1));
                lemma_value_usable_extends(orig, self@, value);
                assert(DataView::Obj(ovi)->Obj_0 == ovi);
            }
            obj.set(self, pairs[i].0.as_str(), value);
            proof {
                assert forall|j: int|
                    0 <= j < orig.slots.len() implies (#[trigger] self@.slots[j]).data
                    == orig.slots[j].data && self@.slots[j].refs >= orig.slots[j].refs by {
                    assert(self@.slots[j] == step.slots[j]);
                    assert(step.slots[j].data == orig.slots[j].data);
                    assert(step.slots[j].refs >= orig.slots[j].refs);
                }
                let pv = pairs_view(pairs@);
                lemma_with_set_all_push(ov0, pv.take(i as int), pv[i as int]);
                assert(pv.take(i + 1) =~= pv.take(i as int).push(pv[i as int]));
                assert(pv[i as int].0 == pairs@[i as int].0@);
            }
            i = i + 1;
        }
        proof {
            assert(pairs_view(pairs@).take(n as int) =~= pairs_view(pairs@));
        }
        obj
    }
}

/// Replacing one slot's data with well-placed data of the same kind keeps
/// the whole context well-formed.
proof fn lemma_wf_slot_update(pre: CtxView, s: int, d: DataView)
    requires
        pre.wf(),
        0 <= s < pre.slots.len(),
        kind_same(pre.slots[s].data, d),
        pre.data_ok(d),
    ensures
        pre.with_slot_data(s, d).wf(),
{
    let post = pre.with_slot_data(s, d);
    assert forall|i: int| 0 <= i < post.slots.len() implies post.data_ok(
        #[trigger] post.slots[i].data,
    ) by {
        if i == s {
            lemma_data_ok_grow(pre, post, d);
        } else {
            assert(pre.data_ok(pre.slots[i].data));
            lemma_data_ok_grow(pre, post, pre.slots[i].data);
        }
    }
}

/// Character-for-character string equality.
pub fn str_eq(a: &str, b: &str) -> (r: bool)
    ensures
        r == (a@ == b@),
{
    let na = a.unicode_len();
    let nb = b.unicode_len();
    if na != nb {
        return false;
    }
    let mut i: usize = 0;
    while i < na
        invariant
            0 <= i <= na,
            na == a@.len(),
            na == b@.len(),
            forall|j: int| 0 <= j < i ==> a@[j] == b@[j],
        decreases na - i,
    {
        if a.get_char(i) != b.get_char(i) {
            return false;
        }
        i = i + 1;
    }
    proof {
        assert(a@ =~= b@);
    }
    true
}

impl MiniV8 {
    /// The stored contents of a slot known to hold an object.
    fn obj_ref(&self, s: usize) -> (od: &ObjectData)
        requires
            s < self@.slots.len(),
            self@.slots[s as int].data is Obj,
        ensures
            od@ == obj_of(self@.slots[s as int].data),
    {
        match &self.slots[s].data {
            SlotData::Obj(od) => od,
            _ => vstd::pervasive::unreached(),
        }
    }

    /// Replaces an index-keyed property in place.
    fn obj_elem_update(&mut self, s: usize, pos: usize, e: ElemEntry)
        requires
            s < old(self)@.slots.len(),
            old(self)@.slots[s as int].data is Obj,
            pos < obj_of(old(self)@.slots[s as int].data).elems.len(),
        ensures
            final(self)@ == old(self)@.with_slot_data(
                s as int,
                DataView::Obj(
                    ObjView {
                        elems: obj_of(old(self)@.slots[s as int].data).elems.update(pos as int, e),
                        ..obj_of(old(self)@.slots[s as int].data)
                    },
                ),
            ),
    {
        let ghost pre_slots = self.slots@;
        match &mut self.slots[s].data {
            SlotData::Obj(od) => {
                od.elems[pos] = e;
            },
            _ => {},
        }
        proof {
            lemma_slots_view_update(pre_slots, s as int, self.slots@[s as int]);
            assert(self@ =~~= old(self)@.with_slot_data(
                s as int,
                DataView::Obj(
                    ObjView {
                        elems: obj_of(old(self)@.slots[s as int].data).elems.update(pos as int, e),
                        ..obj_of(old(self)@.slots[s as int].data)
                    },
                ),
            ));
        }
    }

    /// Inserts a fresh index-keyed property at a position.
    fn obj_elem_insert(&mut self, s: usize, pos: usize, e: ElemEntry)
        requires
            s < old(self)@.slots.len(),
            old(self)@.slots[s as int].data is Obj,
            pos <= obj_of(old(self)@.slots[s as int].data).elems.len(),
        ensures
            final(self)@ == old(self)@.with_slot_data(
                s as int,
                DataView::Obj(
                    ObjView {
                        elems: obj_of(old(self)@.slots[s as int].data).elems.insert(pos as int, e),
                        ..obj_of(old(self)@.slots[s as int].data)
                    },
                ),
            ),
    {
        let ghost pre_slots = self.slots@;
        match &mut self.slots[s].data {
            SlotData::Obj(od) => {
                od.elems.insert(pos, e);
            },
            _ => {},
        }
        proof {
            lemma_slots_view_update(pre_slots, s as int, self.slots@[s as int]);
            assert(self@ =~~= old(self)@.with_slot_data(
                s as int,
                DataView::Obj(
                    ObjView {
                        elems: obj_of(old(self)@.slots[s as int].data).elems.insert(pos as int, e),
                        ..obj_of(old(self)@.slots[s as int].data)
                    },
                ),
            ));
        }
    }

    /// Removes an index-keyed property.
    fn obj_elem_remove(&mut self, s: usize, pos: usize)
        requires
            s < old(self)@.slots.len(),
            old(self)@.slots[s as int].data is Obj,
            pos < obj_of(old(self)@.slots[s as int].data).elems.len(),
        ensures
            final(self)@ == old(self)@.with_slot_data(
                s as int,
                DataView::Obj(
                    ObjView {
                        elems: obj_of(old(self)@.slots[s as int].data).elems.remove(pos as int),
                        ..obj_of(old(self)@.slots[s as int].data)
                    },
                ),
            ),
    {
        let ghost pre_slots = self.slots@;
        match &mut self.slots[s].data {
            SlotData::Obj(od) => {
                od.elems.remove(pos);
            },
            _ => {},
        }
        proof {
            lemma_slots_view_update(pre_slots, s as int, self.slots@[s as int]);
            assert(self@ =~~= old(self)@.with_slot_data(
                s as int,
                DataView::Obj(
                    ObjView {
                        elems: obj_of(old(self)@.slots[s as int].data).elems.remove(pos as int),
                        ..obj_of(old(self)@.slots[s as int].data)
                    },
                ),
            ));
        }
    }

    /// Replaces the value of a string-keyed property, keeping its key.
    fn obj_prop_set_value(&mut self, s: usize, pos: usize, v: Value)
        requires
            s < old(self)@.slots.len(),
            old(self)@.slots[s as int].data is Obj,
            pos < obj_of(old(self)@.slots[s as int].data).props.len(),
        ensures
            final(self)@ == old(self)@.with_slot_data(
                s as int,
                DataView::Obj(
                    ObjView {
                        props: obj_of(old(self)@.slots[s as int].data).props.update(
                            pos as int,
                            PropView {
                                key: obj_of(old(self)@.slots[s as int].data).props[pos as int].key,
                                value: v,
                            },
                        ),
                        ..obj_of(old(self)@.slots[s as int].data)
                    },
                ),
            ),
    {
        let ghost pre_slots = self.slots@;
        match &mut self.slots[s].data {
            SlotData::Obj(od) => {
                od.props[pos].value = v;
            },
            _ => {},
        }
        proof {
            lemma_slots_view_update(pre_slots, s as int, self.slots@[s as int]);
            assert(self@ =~~= old(self)@.with_slot_data(
                s as int,
                DataView::Obj(
                    ObjView {
                        props: obj_of(old(self)@.slots[s as int].data).props.update(
                            pos as int,
                            PropView {
                                key: obj_of(old(self)@.slots[s as int].data).props[pos as int].key,
                                value: v,
                            },
                        ),
                        ..obj_of(old(self)@.slots[s as int].data)
                    },
                ),
            ));
        }
    }

    /// Appends a fresh string-keyed property.
    fn obj_prop_push(&mut self, s: usize, key: String, v: Value)
        requires
            s < old(self)@.slots.len(),
            old(self)@.slots[s as int].data is Obj,
        ensures
            final(self)@ == old(self)@.with_slot_data(
                s as int,
                DataView::Obj(
                    ObjView {
                        props: obj_of(old(self)@.slots[s as int].data).props.push(
                            PropView { key: key@, value: v },
                        ),
                        ..obj_of(old(self)@.slots[s as int].data)
                    },
                ),
            ),
    {
        let ghost pre_slots = self.slots@;
        let ghost key_view = key@;
        match &mut self.slots[s].data {
            SlotData::Obj(od) => {
                od.props.push(PropEntry { key, value: v });
            },
            _ => {},
        }
        proof {
            lemma_slots_view_update(pre_slots, s as int, self.slots@[s as int]);
            assert(self@ =~~= old(self)@.with_slot_data(
                s as int,
                DataView::Obj(
                    ObjView {
                        props: obj_of(old(self)@.slots[s as int].data).props.push(
                            PropView { key: key_view, value: v },
                        ),
                        ..obj_of(old(self)@.slots[s as int].data)
                    },
                ),
            ));
        }
    }

    /// Removes a string-keyed property.
    fn obj_prop_remove(&mut self, s: usize, pos: usize)
        requires
            s < old(self)@.slots.len(),
            old(self)@.slots[s as int].data is Obj,
            pos < obj_of(old(self)@.slots[s as int].data).props.len(),
        ensures
            final(self)@ == old(self)@.with_slot_data(
                s as int,
                DataView::Obj(
                    ObjView {
                        props: obj_of(old(self)@.slots[s as int].data).props.remove(pos as int),
                        ..obj_of(old(self)@.slots[s as int].data)
                    },
                ),
            ),
    {
        let ghost pre_slots = self.slots@;
        match &mut self.slots[s].data {
            SlotData::Obj(od) => {
                od.props.remove(pos);
            },
            _ => {},
        }
        proof {
            lemma_slots_view_update(pre_slots, s as int, self.slots@[s as int]);
            assert(self@ =~~= old(self)@.with_slot_data(
                s as int,
                DataView::Obj(
                    ObjView {
                        props: obj_of(old(self)@.slots[s as int].data).props.remove(pos as int),
                        ..obj_of(old(self)@.slots[s as int].data)
                    },
                ),
            ));
        }
    }
}

/// Finds an index key in a sorted store: the position of the matching
/// property, or, when none matches, the sorted position a fresh one would
/// take.
fn find_elem(od: &ObjectData, idx: u32) -> (r: (bool, usize))
    requires
        od@.inv(),
    ensures
        r.0 == od@.has_index(idx),
        r.0 ==> r.1 < od@.elems.len() && od@.elems[r.1 as int].index == idx && r.1 as int
            == od@.index_pos(idx),
        !r.0 ==> r.1 as int == count_below(od@.elems, idx) && r.1 <= od@.elems.len(),
{
    let n = od.elems.len();
    let mut i: usize = 0;
    while i < n && od.elems[i].index < idx
        invariant
            0 <= i <= n,
            n == od@.elems.len(),
            forall|j: int| 0 <= j < i ==> od@.elems[j].index < idx,
        decreases n - i,
    {
        i = i + 1;
    }
    proof {
        lemma_count_below_sorted(od@.elems, idx);
        let p = count_below(od@.elems, idx);
        assert(i as int == p) by {
            if (i as int) < p {
                assert(od@.elems[i as int].index < idx);
            }
            if p < i as int {
                assert(od@.elems[p].index < idx);
            }
        }
    }
    if i < n && od.elems[i].index == idx {
        proof {
            lemma_index_pos_found(od@, idx, i as int);
        }
        (true, i)
    } else {
        proof {
            assert(!od@.has_index(idx)) by {
                if od@.has_index(idx) {
                    let w = choose|w: int|
                        0 <= w < od@.elems.len() && od@.elems[w].index == idx;
                    assert(w < i as int || i as int <= w);
                    if w < i as int {
                        assert(od@.elems[w].index < idx);
                    } else {
                        assert(od@.elems[w].index >= idx);
                        if w > i as int {
                            assert(od@.elems[i as int].index < od@.elems[w].index);
                        }
                    }
                }
            }
        }
        (false, i)
    }
}

/// Finds a string key among the string-keyed properties.
fn find_prop(od: &ObjectData, key: &str) -> (r: (bool, usize))
    requires
        od@.inv(),
    ensures
        r.0 == od@.has_name(key@),
        r.0 ==> r.1 < od@.props.len() && od@.props[r.1 as int].key == key@ && r.1 as int
            == od@.name_pos(key@),
{
    let n = od.props.len();
    let mut i: usize = 0;
    while i < n
        invariant
            0 <= i <= n,
            n == od@.props.len(),
            forall|j: int| 0 <= j < i ==> od@.props[j].key != key@,
        decreases n - i,
    {
        if str_eq(od.props[i].key.as_str(), key) {
            proof {
                lemma_name_pos_found(od@, key@, i as int);
            }
            return (true, i);
        }
        i = i + 1;
    }
    (false, 0)
}

impl Object {
    /// Reads the property under the key from the model's store: the stored
    /// value, or undefined when the store has none. For a slot the host
    /// created the store is the whole truth; for an engine-imported mirror
    /// only the positive half is meaningful — a property the mirror lacks
    /// may still exist engine-side, and the embedding reads it through the
    /// engine.
    pub fn get(&self, mv8: &MiniV8, key: &str) -> (r: Value)
        requires
            mv8@.usable(self.handle),
            mv8@.slots[self.handle.slot as int].data is Obj,
            mv8@.wf(),
        ensures
            mv8@.complete_at(self.handle.slot as int) ==> r == obj_of(
                mv8@.slots[self.handle.slot as int].data,
            ).lookup(key@),
            obj_of(mv8@.slots[self.handle.slot as int].data).has_key(key@) ==> r == obj_of(
                mv8@.slots[self.handle.slot as int].data,
            ).lookup(key@),
            mv8@.value_ok(r),
    {
        let s = self.handle.slot;
        proof {
            assert(mv8@.data_ok(mv8@.slots[s as int].data));
        }
        let od = mv8.obj_ref(s);
        match parse_index(key) {
            Some(idx) => {
                let (found, pos) = find_elem(od, idx);
                if found {
                    od.elems[pos].value
                } else {
                    Value::Undefined
                }
            },
            None => {
                let (found, pos) = find_prop(od, key);
                if found {
                    od.props[pos].value
                } else {
                    Value::Undefined
                }
            },
        }
    }

    /// Writes a property under the key. An existing property's value is
    /// replaced in place; a fresh key takes its enumeration position: a
    /// fresh index key its ascending place among the index keys, a fresh
    /// string key the end of the insertion order.
    pub fn set(&self, mv8: &mut MiniV8, key: &str, value: Value)
        requires
            old(mv8)@.usable(self.handle),
            old(mv8)@.slots[self.handle.slot as int].data is Obj,
            old(mv8)@.wf(),
            old(mv8)@.value_ok(value),
        ensures
            final(mv8)@ == old(mv8)@.with_slot_data(
                self.handle.slot as int,
                DataView::Obj(
                    obj_of(old(mv8)@.slots[self.handle.slot as int].data).with_set(key@, value),
                ),
            ),
            final(mv8)@.wf(),
            final(mv8)@.usable(self.handle),
    {
        let s = self.handle.slot;
        let ghost pre = mv8@;
        let ghost ov = obj_of(pre.slots[s as int].data);
        proof {
            assert(pre.data_ok(pre.slots[s as int].data));
        }
        match parse_index(key) {
            Some(idx) => {
                let (found, pos) = find_elem(mv8.obj_ref(s), idx);
                if found {
                    mv8.obj_elem_update(s, pos, ElemEntry { index: idx, value });
                } else {
                    mv8.obj_elem_insert(s, pos, ElemEntry { index: idx, value });
                }
            },
            None => {
                let (found, pos) = find_prop(mv8.obj_ref(s), key);
                if found {
                    mv8.obj_prop_set_value(s, pos, value);
                } else {
                    mv8.obj_prop_push(s, key.to_owned(), value);
                }
            },
        }
        proof {
            assert(mv8@ =~~= pre.with_slot_data(
                s as int,
                DataView::Obj(ov.with_set(key@, value)),
            ));
            lemma_data_ok_with_set(pre, ov, key@, value);
            lemma_wf_slot_update(pre, s as int, DataView::Obj(ov.with_set(key@, value)));
        }
    }

    /// True when the model's store has a property under the key. Exact for
    /// a slot the host created; for an engine-imported mirror only a true
    /// answer is meaningful — the engine may hold properties (built-ins,
    /// script-created ones) the mirror cannot see, so a false answer about
    /// such a slot decides nothing and the embedding asks the engine.
    pub fn has(&self, mv8: &MiniV8, key: &str) -> (r: bool)
        requires
            mv8@.usable(self.handle),
            mv8@.slots[self.handle.slot as int].data is Obj,
            mv8@.wf(),
        ensures
            mv8@.complete_at(self.handle.slot as int) ==> r == obj_of(
                mv8@.slots[self.handle.slot as int].data,
            ).has_key(key@),
            obj_of(mv8@.slots[self.handle.slot as int].data).has_key(key@) ==> r,
    {
        let s = self.handle.slot;
        proof {
            assert(mv8@.data_ok(mv8@.slots[s as int].data));
        }
        let od = mv8.obj_ref(s);
        match parse_index(key) {
            Some(idx) => {
                let (found, _) = find_elem(od, idx);
                found
            },
            None => {
                let (found, _) = find_prop(od, key);
                found
            },
        }
    }

    /// Removes the property under the key from the model's store. Removing
    /// a key the store lacks is a no-op, not an error; afterwards the store
    /// has no property under the key either way — the whole truth for a
    /// host-created slot, while on an engine-imported mirror the embedding
    /// must carry the deletion through to the engine.
    pub fn remove(&self, mv8: &mut MiniV8, key: &str)
        requires
            old(mv8)@.usable(self.handle),
            old(mv8)@.slots[self.handle.slot as int].data is Obj,
            old(mv8)@.wf(),
        ensures
            final(mv8)@ == old(mv8)@.with_slot_data(
                self.handle.slot as int,
                DataView::Obj(
                    obj_of(old(mv8)@.slots[self.handle.slot as int].data).with_remove(key@),
                ),
            ),
            old(mv8)@.complete_at(self.handle.slot as int) ==> !obj_of(
                final(mv8)@.slots[self.handle.slot as int].data,
            ).has_key(key@),
            !obj_of(old(mv8)@.slots[self.handle.slot as int].data).has_key(key@) ==> final(mv8)@
                == old(mv8)@,
            final(mv8)@.wf(),
            final(mv8)@.usable(self.handle),
    {
        let s = self.handle.slot;
        let ghost pre = mv8@;
        let ghost ov = obj_of(pre.slots[s as int].data);
        proof {
            assert(pre.data_ok(pre.slots[s as int].data));
        }
        match parse_index(key) {
            Some(idx) => {
                let (found, pos) = find_elem(mv8.obj_ref(s), idx);
                if found {
                    mv8.obj_elem_remove(s, pos);
                }
            },
            None => {
                let (found, pos) = find_prop(mv8.obj_ref(s), key);
                if found {
                    mv8.obj_prop_remove(s, pos);
                }
            },
        }
        proof {
            assert(mv8@ =~~= pre.with_slot_data(s as int, DataView::Obj(ov.with_remove(key@))));
            lemma_data_ok_with_remove(pre, ov, key@);
            lemma_wf_slot_update(pre, s as int, DataView::Obj(ov.with_remove(key@)));
            if !ov.has_key(key@) {
                assert(pre.with_slot_data(s as int, DataView::Obj(ov.with_remove(key@))) =~~= pre);
            }
        }
    }

    /// Collects the object's properties as key-value pairs, in the same
    /// enumeration order as `keys`, the way a `for-in` walk would visit
    /// them. The model's objects have no prototype chain, so inherited
    /// properties add nothing whether or not they are asked for.
    pub fn properties(&self, mv8: &MiniV8, include_inherited: bool) -> (r: Vec<(String, Value)>)
        requires
            mv8@.usable(self.handle),
            mv8@.slots[self.handle.slot as int].data is Obj,
            mv8@.wf(),
        ensures
            mv8@.complete_at(self.handle.slot as int) ==> ({
                let ov = obj_of(mv8@.slots[self.handle.slot as int].data);
                &&& r@.len() == ov.elems.len() + ov.props.len()
                &&& forall|i: int|
                    0 <= i < ov.elems.len() ==> (#[trigger] r@[i]).0@ == decimal_seq(
                        ov.elems[i].index as int,
                    ) && r@[i].1 == ov.elems[i].value
                &&& forall|j: int|
                    0 <= j < ov.props.len() ==> (#[trigger] r@[ov.elems.len() + j]).0@
                        == ov.props[j].key && r@[ov.elems.len() + j].1 == ov.props[j].value
            }),
    {
        let s = self.handle.slot;
        let od = mv8.obj_ref(s);
        let ghost ov = obj_of(mv8@.slots[s as int].data);
        let mut r: Vec<(String, Value)> = Vec::new();
        let ne = od.elems.len();
        let mut i: usize = 0;
        while i < ne
            invariant
                0 <= i <= ne,
                ne == ov.elems.len(),
                od@ == ov,
                r@.len() == i,
                forall|j: int|
                    0 <= j < i ==> (#[trigger] r@[j]).0@ == decimal_seq(ov.elems[j].index as int)
                        && r@[j].1 == ov.elems[j].value,
            decreases ne - i,
        {
            r.push((decimal_u32(od.elems[i].index), od.elems[i].value));
            i = i + 1;
        }
        let np = od.props.len();
        let mut k: usize = 0;
        while k < np
            invariant
                0 <= k <= np,
                ne == ov.elems.len(),
                np == ov.props.len(),
                od@ == ov,
                r@.len() == ne + k,
                forall|j: int|
                    0 <= j < ne ==> (#[trigger] r@[j]).0@ == decimal_seq(ov.elems[j].index as int)
                        && r@[j].1 == ov.elems[j].value,
                forall|j: int|
                    0 <= j < k ==> (#[trigger] r@[ne + j]).0@ == ov.props[j].key && r@[ne + j].1
                        == ov.props[j].value,
            decreases np - k,
        {
            r.push((od.props[k].key.clone(), od.props[k].value));
            k = k + 1;
        }
        r
    }

    /// Collects the model store's property keys in enumeration order: index
    /// keys first, ascending, in canonical decimal form, then string keys
    /// in insertion order — the whole truth for a host-created slot, the
    /// mirrored subset for an engine-imported one. The model's objects have
    /// no prototype chain, so inherited properties add nothing whether or
    /// not they are asked for.
    pub fn keys(&self, mv8: &MiniV8, include_inherited: bool) -> (r: Vec<String>)
        requires
            mv8@.usable(self.handle),
            mv8@.slots[self.handle.slot as int].data is Obj,
            mv8@.wf(),
        ensures
            mv8@.complete_at(self.handle.slot as int) ==> r@.len() == obj_of(
                mv8@.slots[self.handle.slot as int].data,
            ).keys_seq().len(),
            mv8@.complete_at(self.handle.slot as int) ==> forall|i: int|
                0 <= i < r@.len() ==> r@[i]@ == obj_of(
                    mv8@.slots[self.handle.slot as int].data,
                ).keys_seq()[i],
    {
        let s = self.handle.slot;
        let od = mv8.obj_ref(s);
        let ghost ov = obj_of(mv8@.slots[s as int].data);
        let mut r: Vec<String> = Vec::new();
        let ne = od.elems.len();
        let mut i: usize = 0;
        while i < ne
            invariant
                0 <= i <= ne,
                ne == ov.elems.len(),
                od@ == ov,
                r@.len() == i,
                forall|j: int| 0 <= j < i ==> r@[j]@ == ov.keys_seq()[j],
            decreases ne - i,
        {
            r.push(decimal_u32(od.elems[i].index));
            i = i + 1;
        }
        let np = od.props.len();
        let mut k: usize = 0;
        while k < np
            invariant
                0 <= k <= np,
                ne == ov.elems.len(),
                np == ov.props.len(),
                od@ == ov,
                r@.len() == ne + k,
                forall|j: int| 0 <= j < ne + k ==> r@[j]@ == ov.keys_seq()[j],
            decreases np - k,
        {
            r.push(od.props[k].key.clone());
            k = k + 1;
        }
        r
    }
}

} // verus!
