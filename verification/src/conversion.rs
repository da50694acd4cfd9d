//! The conversion layer: the two-directional mapping between host types and
//! bridge values. Outbound conversions build bridge values, allocating in
//! the context only for strings and collections; inbound conversions follow
//! the coercion rules below. The engine's own full coercion grammar is out
//! of the model's reach, so where JavaScript would consult it the model
//! applies a documented policy: numeric strings are plain decimal runs of
//! at most fifteen digits with an optional leading minus, any other string
//! has no numeric value, and reference values other than strings coerce to
//! NaN.

use vstd::prelude::*;
use vstd::arithmetic::power2::pow2;
use crate::error::Error;
use crate::mini_v8::{
    lemma_extends_trans, lemma_value_ok_extends, lemma_value_usable_extends,
    lemma_values_usable_extends, text_of, CtxView, DataView, MiniV8, SlotData,
};
use crate::number::{
    bits_is_infinite, bits_is_nan, bits_to_sint, bits_to_uint, clamp, dbl_encode, dbl_trunc_parts,
    encode_mag, exp_of, frac_of, int_to_bits, mag_floor, sign_of, trunc_of,
};
use crate::object::{all_digits, decimal_seq, decimal_u64, digits_val, ten_pow};
use crate::value::{kind_name_of, JsString, Value};

verus! {

/// The canonical NaN bit pattern the coercions produce.
pub const NAN_BITS: u64 = 0x7FF8000000000000;

/// The bit pattern of one.
pub const ONE_BITS: u64 = 0x3FF0000000000000;

/// The bit pattern of negative zero.
pub const NEG_ZERO_BITS: u64 = 0x8000000000000000;

/// JavaScript truthiness of a bridge value: undefined, null, false, either
/// zero, NaN and the empty string are false; everything else is true.
pub open spec fn truthy(ctx: CtxView, v: Value) -> bool {
    match v {
        Value::Undefined => false,
        Value::Null => false,
        Value::Boolean(b) => b,
        Value::Number(n) => !(n == 0 || n == NEG_ZERO_BITS || bits_is_nan(n)),
        Value::Date(_) => true,
        Value::String(s) => text_of(ctx.slots[s.handle.slot as int].data).len() > 0,
        Value::Array(_) => true,
        Value::Function(_) => true,
        Value::Object(_) => true,
    }
}

/// The numeric value of a string under the model's policy: the empty
/// string is zero, a run of at most fifteen decimal digits — with an
/// optional leading minus — is its integer value, and anything else has no
/// numeric value. The engine's own ToNumber grammar (whitespace, fractions,
/// exponents, hex) is out of the model's reach; where it matters, the
/// embedding coerces through the engine.
pub open spec fn str_number(s: Seq<char>) -> u64 {
    if s.len() == 0 {
        0
    } else if all_digits(s) && s.len() <= 15 {
        encode_mag(digits_val(s), false) as u64
    } else if s[0] == '-' && s.len() >= 2 && s.len() <= 16 && all_digits(s.drop_first()) {
        encode_mag(digits_val(s.drop_first()), true) as u64
    } else {
        NAN_BITS
    }
}

/// The number a bridge value coerces to, as double bits.
pub open spec fn to_number_bits(ctx: CtxView, v: Value) -> u64 {
    match v {
        Value::Undefined => NAN_BITS,
        Value::Null => 0,
        Value::Boolean(b) => if b {
            ONE_BITS
        } else {
            0
        },
        Value::Number(n) => n,
        Value::Date(n) => n,
        Value::String(s) => str_number(text_of(ctx.slots[s.handle.slot as int].data)),
        _ => NAN_BITS,
    }
}

/// The text of a number: NaN and the infinities by name, an integral value
/// whose magnitude fits sixty-four bits in decimal, and — as the model's
/// policy, since shortest-representation formatting belongs to the engine —
/// the word `number` for any other finite value.
pub open spec fn number_text(bits: u64) -> Seq<char> {
    if bits_is_nan(bits) {
        "NaN"@
    } else if bits_is_infinite(bits) {
        if sign_of(bits) {
            "-Infinity"@
        } else {
            "Infinity"@
        }
    } else if mag_floor(bits) < pow2(64) && encode_mag(mag_floor(bits), sign_of(bits)) == bits {
        if mag_floor(bits) == 0 {
            "0"@
        } else if sign_of(bits) {
            "-"@ + decimal_seq(mag_floor(bits))
        } else {
            decimal_seq(mag_floor(bits))
        }
    } else {
        "number"@
    }
}

/// The text a bridge value coerces to. Reference values other than strings
/// get their JavaScript object tags; date text is the date's numeric text,
/// the model's stand-in for the engine's calendar formatting.
pub open spec fn to_text(ctx: CtxView, v: Value) -> Seq<char> {
    match v {
        Value::Undefined => "undefined"@,
        Value::Null => "null"@,
        Value::Boolean(b) => if b {
            "true"@
        } else {
            "false"@
        },
        Value::Number(n) => number_text(n),
        Value::Date(n) => number_text(n),
        Value::String(s) => text_of(ctx.slots[s.handle.slot as int].data),
        Value::Array(_) => "[object Array]"@,
        Value::Function(_) => "[object Function]"@,
        Value::Object(_) => "[object Object]"@,
    }
}

/// The exponent and fraction fields of double bits.
fn dbl_fields(bits: u64) -> (r: (u64, u64))
    ensures
        r.0 as int == exp_of(bits),
        r.1 as int == frac_of(bits),
{
    proof {
        vstd::arithmetic::power2::lemma2_to64();
        vstd::arithmetic::power2::lemma2_to64_rest();
    }
    ((bits / 0x10000000000000) % 2048, bits % 0x10000000000000)
}

/// Whether the bits are NaN.
pub fn number_is_nan(bits: u64) -> (r: bool)
    ensures
        r == bits_is_nan(bits),
{
    let (e, f) = dbl_fields(bits);
    e == 2047 && f != 0
}

/// Truncates double bits to a signed integer, saturating at the ends of the
/// range, with NaN going to zero — the conversion an `as`-cast from `f64`
/// to `i64` performs.
pub fn number_to_i64(bits: u64) -> (r: i64)
    ensures
        bits_is_nan(bits) ==> r == 0,
        !bits_is_nan(bits) ==> r as int == clamp(trunc_of(bits), i64::MIN as int, i64::MAX as int),
{
    proof {
        vstd::arithmetic::power2::lemma2_to64_rest();
    }
    let p = dbl_trunc_parts(bits);
    if p.nan {
        0
    } else if p.neg {
        if p.huge || p.mag >= 0x8000000000000000 {
            i64::MIN
        } else {
            -(p.mag as i64)
        }
    } else {
        if p.huge || p.mag > 0x7FFFFFFFFFFFFFFF {
            i64::MAX
        } else {
            p.mag as i64
        }
    }
}

/// Truncates double bits to an unsigned integer, saturating at the ends of
/// the range, with NaN going to zero.
pub fn number_to_u64(bits: u64) -> (r: u64)
    ensures
        bits_is_nan(bits) ==> r == 0,
        !bits_is_nan(bits) ==> r as int == clamp(trunc_of(bits), 0, u64::MAX as int),
{
    proof {
        vstd::arithmetic::power2::lemma2_to64_rest();
    }
    let p = dbl_trunc_parts(bits);
    if p.nan {
        0
    } else if p.neg {
        0
    } else if p.huge {
        u64::MAX
    } else {
        p.mag
    }
}

/// Reads a string as a number under the model's policy.
fn parse_str_number(s: &str) -> (r: u64)
    ensures
        r == str_number(s@),
{
    let n = s.unicode_len();
    if n == 0 {
        return 0;
    }
    let neg = s.get_char(0) == '-';
    let start: usize = if neg { 1 } else { 0 };
    proof {
        assert('-' as u32 == 45);
        if neg {
            assert(!crate::object::is_digit(s@[0]));
        }
    }
    if n == start {
        return NAN_BITS;
    }
    if n - start > 15 {
        return NAN_BITS;
    }
    let ghost digits = if neg { s@.drop_first() } else { s@ };
    proof {
        assert(digits.len() == n - start);
        assert(forall|j: int| 0 <= j < digits.len() ==> digits[j] == s@[start + j]);
        assert(digits.subrange(0, 0) =~= s@.subrange(start as int, start as int));
    }
    let mut i: usize = start;
    let mut acc: u64 = 0;
    while i < n
        invariant
            start <= i <= n,
            n == s@.len(),
            start <= 1,
            n - start <= 15,
            digits == (if neg { s@.drop_first() } else { s@ }),
            digits.len() == n - start,
            forall|j: int| 0 <= j < digits.len() ==> digits[j] == s@[start + j],
            all_digits(digits.subrange(0, i - start)),
            acc == digits_val(digits.subrange(0, i - start)),
            acc < 1000000000000000,
        decreases n - i,
    {
        let c = s.get_char(i);
        let d = c as u32;
        if d < 48 || d > 57 {
            proof {
                assert(!crate::object::is_digit(s@[i as int]));
                assert(!crate::object::is_digit(digits[i - start]));
                if neg {
                    assert(!all_digits(s@.drop_first()));
                    assert(!all_digits(s@)) by {
                        assert(!crate::object::is_digit(s@[0]));
                    }
                } else {
                    assert(!all_digits(s@));
                }
            }
            return NAN_BITS;
        }
        acc = acc * 10 + (d - 48) as u64;
        proof {
            let t = digits.subrange(0, i - start + 1);
            assert(t.drop_last() =~= digits.subrange(0, i - start));
            assert(t.last() == digits[i - start]);
            assert(digits[i - start] == s@[i as int]);
            assert(all_digits(t)) by {
                assert(forall|j: int|
                    0 <= j < t.len() - 1 ==> t[j] == digits.subrange(0, i - start)[j]);
            }
            assert(acc == digits_val(t));
            crate::object::lemma_digits_val_bound(t);
            lemma_ten_pow_fifteen(t.len() as nat);
        }
        i = i + 1;
    }
    proof {
        assert(digits.subrange(0, n - start) =~= digits);
        if neg {
            assert(!crate::object::is_digit(s@[0]));
            assert(!all_digits(s@));
        }
    }
    dbl_encode(acc, neg)
}

/// Powers of ten up to the model's numeric-string length cap.
proof fn lemma_ten_pow_fifteen(n: nat)
    requires
        n <= 15,
    ensures
        ten_pow(n) <= 1000000000000000,
{
    assert(ten_pow(0) == 1);
    assert(ten_pow(1) == 10);
    assert(ten_pow(2) == 100);
    assert(ten_pow(3) == 1000);
    assert(ten_pow(4) == 10000);
    assert(ten_pow(5) == 100000);
    assert(ten_pow(6) == 1000000);
    assert(ten_pow(7) == 10000000);
    assert(ten_pow(8) == 100000000);
    assert(ten_pow(9) == 1000000000);
    assert(ten_pow(10) == 10000000000);
    assert(ten_pow(11) == 100000000000);
    assert(ten_pow(12) == 1000000000000);
    assert(ten_pow(13) == 10000000000000);
    assert(ten_pow(14) == 100000000000000);
    assert(ten_pow(15) == 1000000000000000);
}

/// Writes a number as text.
pub fn number_to_text(bits: u64) -> (r: String)
    ensures
        r@ == number_text(bits),
{
    let (e, f) = dbl_fields(bits);
    if e == 2047 {
        if f != 0 {
            return "NaN".to_owned();
        }
        if bits >= 0x8000000000000000 {
            return "-Infinity".to_owned();
        }
        return "Infinity".to_owned();
    }
    let p = dbl_trunc_parts(bits);
    proof {
        vstd::arithmetic::power2::lemma2_to64_rest();
    }
    if p.huge {
        return "number".to_owned();
    }
    let again = dbl_encode(p.mag, p.neg);
    if again != bits {
        return "number".to_owned();
    }
    if p.mag == 0 {
        return "0".to_owned();
    }
    let digits = decimal_u64(p.mag);
    if p.neg {
        let mut s = String::new();
        s.append("-");
        s.append(digits.as_str());
        proof {
            assert(s@ =~= "-"@ + decimal_seq(mag_floor(bits)));
        }
        s
    } else {
        digits
    }
}

/// An outbound conversion error naming the given source and target types.
pub open spec fn to_js_error(e: Error, from: Seq<char>, to: Seq<char>) -> bool {
    e matches Error::ToJsConversionError { from: f, to: t } && f@ == from && t@ == to
}

/// An inbound conversion error naming the given source and target types.
pub open spec fn from_js_error(e: Error, from: Seq<char>, to: Seq<char>) -> bool {
    e matches Error::FromJsConversionError { from: f, to: t } && f@ == from && t@ == to
}

/// The value at an index of an argument list: undefined past the end, the
/// way a JavaScript call treats missing arguments.
pub open spec fn values_get(vs: Seq<Value>, i: int) -> Value {
    if 0 <= i < vs.len() {
        vs[i]
    } else {
        Value::Undefined
    }
}

/// The values from the given position on, empty past the end.
pub open spec fn seq_suffix(vs: Seq<Value>, from: int) -> Seq<Value> {
    if 0 <= from <= vs.len() {
        vs.subrange(from, vs.len() as int)
    } else {
        Seq::empty()
    }
}

/// What coercing a value to an engine string does: a string passes through
/// as itself and the context is untouched; any other value's text goes into
/// a fresh string slot.
pub open spec fn coerce_string_spec(
    value: Value,
    pre: CtxView,
    post: CtxView,
    r: Result<JsString, Error>,
) -> bool {
    match value {
        Value::String(s) => post == pre && r == Ok::<JsString, Error>(s),
        _ => post == pre.after_alloc(DataView::Text(to_text(pre, value))) && r == Ok::<
            JsString,
            Error,
        >(JsString { handle: pre.fresh_handle() }),
    }
}

impl Value {
    /// Coerces the value to a boolean: `true` exactly when it is truthy.
    pub fn coerce_boolean(&self, mv8: &MiniV8) -> (r: bool)
        requires
            *self matches Value::String(s) ==> mv8@.usable(s.handle) && mv8@.slots[
                s.handle.slot as int
            ].data is Text,
        ensures
            r == truthy(mv8@, *self),
    {
        match self {
            Value::Undefined => false,
            Value::Null => false,
            Value::Boolean(b) => *b,
            Value::Number(n) => !(*n == 0 || *n == NEG_ZERO_BITS || number_is_nan(*n)),
            Value::Date(_) => true,
            Value::String(s) => {
                match &mv8.slots[s.handle.slot].data {
                    SlotData::Text(t) => !t.as_str().is_empty(),
                    _ => vstd::pervasive::unreached(),
                }
            },
            _ => true,
        }
    }

    /// Coerces the value to a number, as double bits. In the model this
    /// always succeeds; the error side is kept because the engine's own
    /// coercion may raise. The model diverges from the engine's ToNumber on
    /// strings: only optionally signed decimal integer runs of at most
    /// fifteen digits are numeric here (no whitespace, fractions, exponents
    /// or hex), and arrays and plain objects coerce to NaN rather than
    /// through their primitive forms.
    pub fn coerce_number(&self, mv8: &MiniV8) -> (r: Result<u64, Error>)
        requires
            *self matches Value::String(s) ==> mv8@.usable(s.handle) && mv8@.slots[
                s.handle.slot as int
            ].data is Text,
        ensures
            r == Ok::<u64, Error>(to_number_bits(mv8@, *self)),
    {
        match self {
            Value::Undefined => Ok(NAN_BITS),
            Value::Null => Ok(0),
            Value::Boolean(b) => Ok(if *b { ONE_BITS } else { 0 }),
            Value::Number(n) => Ok(*n),
            Value::Date(n) => Ok(*n),
            Value::String(s) => {
                match &mv8.slots[s.handle.slot].data {
                    SlotData::Text(t) => Ok(parse_str_number(t.as_str())),
                    _ => vstd::pervasive::unreached(),
                }
            },
            _ => Ok(NAN_BITS),
        }
    }

    /// Coerces the value to an engine-resident string. A string passes
    /// through as itself; any other value's text is written into a fresh
    /// string slot. In the model this always succeeds; the error side is
    /// kept because the engine's own coercion may raise. The model diverges
    /// from the engine's ToString on non-integral finite numbers (their
    /// text is the word `number`), on dates (numeric text, not calendar
    /// text) and on reference values (their object tags, not their
    /// contents).
    pub fn coerce_string(&self, mv8: &mut MiniV8) -> (r: Result<JsString, Error>)
        requires
            old(mv8)@.alive,
            *self matches Value::String(s) ==> old(mv8)@.usable(s.handle) && old(mv8)@.slots[
                s.handle.slot as int
            ].data is Text,
        ensures
            *self matches Value::String(s) ==> r == Ok::<JsString, Error>(s) && final(mv8)@ == old(
                mv8,
            )@,
            !(*self matches Value::String(_)) ==> final(mv8)@ == old(mv8)@.after_alloc(
                DataView::Text(to_text(old(mv8)@, *self)),
            ) && (r matches Ok(js) && js.handle == old(mv8)@.fresh_handle()
                && js.handle.slot == old(mv8)@.slots.len() && final(mv8)@.usable(js.handle)),
            old(mv8)@.wf() ==> final(mv8)@.wf(),
    {
        match self {
            Value::String(s) => Ok(*s),
            Value::Undefined => Ok(mv8.create_string("undefined")),
            Value::Null => Ok(mv8.create_string("null")),
            Value::Boolean(b) => Ok(
                mv8.create_string(if *b { "true" } else { "false" }),
            ),
            Value::Number(n) => {
                let t = number_to_text(*n);
                Ok(mv8.create_string(t.as_str()))
            },
            Value::Date(n) => {
                let t = number_to_text(*n);
                Ok(mv8.create_string(t.as_str()))
            },
            Value::Array(_) => Ok(mv8.create_string("[object Array]")),
            Value::Function(_) => Ok(mv8.create_string("[object Function]")),
            Value::Object(_) => Ok(mv8.create_string("[object Object]")),
        }
    }

    /// Converts the value into a host type: a wrapper around
    /// `FromValue::from_value`.
    pub fn into<T: FromValue>(self, mv8: &mut MiniV8) -> (r: Result<T, Error>)
        requires
            old(mv8)@.alive,
            old(mv8)@.wf(),
            old(mv8)@.value_usable(self),
        ensures
            final(mv8)@.wf(),
            final(mv8)@.extends(old(mv8)@),
            T::from_value_spec(self, old(mv8)@, final(mv8)@, r),
    {
        T::from_value(self, mv8)
    }
}

/// Trait for types convertible to a bridge value. A conversion may allocate
/// in the context but leaves everything already there in place, what it
/// returns is usable against the context it ran against, and each
/// implementation pins its exact behaviour in its `to_value_spec`.
pub trait ToValue: Sized {
    /// The exact relation of the conversion: how the context changes and
    /// what comes back, given the context it started from.
    spec fn to_value_spec(self, pre: CtxView, post: CtxView, r: Result<Value, Error>) -> bool;

    /// Performs the conversion.
    fn to_value(self, mv8: &mut MiniV8) -> (r: Result<Value, Error>)
        requires
            old(mv8)@.alive,
            old(mv8)@.wf(),
        ensures
            final(mv8)@.wf(),
            final(mv8)@.extends(old(mv8)@),
            r matches Ok(v) ==> final(mv8)@.value_usable(v),
            self.to_value_spec(old(mv8)@, final(mv8)@, r),
    ;
}

/// Trait for types convertible from a bridge value, under the same state
/// discipline as `ToValue` and with each implementation's exact behaviour
/// pinned in its `from_value_spec`.
pub trait FromValue: Sized {
    /// The exact relation of the conversion: how the context changes and
    /// what comes back, given the context it started from.
    spec fn from_value_spec(value: Value, pre: CtxView, post: CtxView, r: Result<Self, Error>) -> bool;

    /// Performs the conversion.
    fn from_value(value: Value, mv8: &mut MiniV8) -> (r: Result<Self, Error>)
        requires
            old(mv8)@.alive,
            old(mv8)@.wf(),
            old(mv8)@.value_usable(value),
        ensures
            final(mv8)@.wf(),
            final(mv8)@.extends(old(mv8)@),
            Self::from_value_spec(value, old(mv8)@, final(mv8)@, r),
    ;
}

impl ToValue for Value {
    /// A value converts to itself, provided its handle, if any, is still
    /// usable — a dead handle is refused rather than dereferenced.
    open spec fn to_value_spec(self, pre: CtxView, post: CtxView, r: Result<Value, Error>) -> bool {
        post == pre && if pre.value_usable(self) {
            r == Ok::<Value, Error>(self)
        } else {
            r matches Err(e) && to_js_error(e, "value"@, kind_name_of(self))
        }
    }

    fn to_value(self, mv8: &mut MiniV8) -> (r: Result<Value, Error>) {
        if mv8.value_backed(&self) {
            Ok(self)
        } else {
            Err(Error::ToJsConversionError { from: "value", to: self.kind_name() })
        }
    }
}

impl FromValue for Value {
    open spec fn from_value_spec(value: Value, pre: CtxView, post: CtxView, r: Result<Self, Error>) -> bool {
        post == pre && r == Ok::<Value, Error>(value)
    }

    fn from_value(value: Value, mv8: &mut MiniV8) -> (r: Result<Self, Error>) {
        Ok(value)
    }
}

impl ToValue for () {
    open spec fn to_value_spec(self, pre: CtxView, post: CtxView, r: Result<Value, Error>) -> bool {
        post == pre && r == Ok::<Value, Error>(Value::Undefined)
    }

    fn to_value(self, mv8: &mut MiniV8) -> (r: Result<Value, Error>) {
        Ok(Value::Undefined)
    }
}

impl FromValue for () {
    open spec fn from_value_spec(value: Value, pre: CtxView, post: CtxView, r: Result<Self, Error>) -> bool {
        post == pre && r == Ok::<(), Error>(())
    }

    fn from_value(value: Value, mv8: &mut MiniV8) -> (r: Result<Self, Error>) {
        Ok(())
    }
}

impl ToValue for bool {
    open spec fn to_value_spec(self, pre: CtxView, post: CtxView, r: Result<Value, Error>) -> bool {
        post == pre && r == Ok::<Value, Error>(Value::Boolean(self))
    }

    fn to_value(self, mv8: &mut MiniV8) -> (r: Result<Value, Error>) {
        Ok(Value::Boolean(self))
    }
}

impl FromValue for bool {
    /// Any value coerces to its truthiness; this never fails.
    open spec fn from_value_spec(value: Value, pre: CtxView, post: CtxView, r: Result<Self, Error>) -> bool {
        post == pre && r == Ok::<bool, Error>(truthy(pre, value))
    }

    fn from_value(value: Value, mv8: &mut MiniV8) -> (r: Result<Self, Error>) {
        Ok(value.coerce_boolean(mv8))
    }
}

impl<T: ToValue> ToValue for Option<T> {
    /// An absent value is null; a present one converts as its contents.
    open spec fn to_value_spec(self, pre: CtxView, post: CtxView, r: Result<Value, Error>) -> bool {
        match self {
            None => post == pre && r == Ok::<Value, Error>(Value::Null),
            Some(v) => v.to_value_spec(pre, post, r),
        }
    }

    fn to_value(self, mv8: &mut MiniV8) -> (r: Result<Value, Error>) {
        match self {
            Some(val) => val.to_value(mv8),
            None => Ok(Value::Null),
        }
    }
}

impl<T: FromValue> FromValue for Option<T> {
    /// Null converts to an absent value; anything else to a present one.
    open spec fn from_value_spec(value: Value, pre: CtxView, post: CtxView, r: Result<Self, Error>) -> bool {
        if value is Null {
            post == pre && r == Ok::<Option<T>, Error>(None)
        } else {
            exists|rr: Result<T, Error>|
                #[trigger] T::from_value_spec(value, pre, post, rr) && match rr {
                    Ok(t) => r == Ok::<Option<T>, Error>(Some(t)),
                    Err(e) => r == Err::<Option<T>, Error>(e),
                }
        }
    }

    fn from_value(value: Value, mv8: &mut MiniV8) -> (r: Result<Self, Error>) {
        match value {
            Value::Null => Ok(None),
            value => match T::from_value(value, mv8) {
                Ok(v) => Ok(Some(v)),
                Err(e) => Err(e),
            },
        }
    }
}

impl ToValue for JsString {
    open spec fn to_value_spec(self, pre: CtxView, post: CtxView, r: Result<Value, Error>) -> bool {
        post == pre && if pre.value_usable(Value::String(self)) {
            r == Ok::<Value, Error>(Value::String(self))
        } else {
            r matches Err(e) && to_js_error(e, "string"@, "string"@)
        }
    }

    fn to_value(self, mv8: &mut MiniV8) -> (r: Result<Value, Error>) {
        if mv8.value_backed(&Value::String(self)) {
            Ok(Value::String(self))
        } else {
            Err(Error::ToJsConversionError { from: "string", to: "string" })
        }
    }
}

impl FromValue for JsString {
    /// Any value coerces to an engine string; this never fails.
    open spec fn from_value_spec(value: Value, pre: CtxView, post: CtxView, r: Result<Self, Error>) -> bool {
        coerce_string_spec(value, pre, post, r)
    }

    fn from_value(value: Value, mv8: &mut MiniV8) -> (r: Result<Self, Error>) {
        value.coerce_string(mv8)
    }
}

impl ToValue for crate::value::Array {
    open spec fn to_value_spec(self, pre: CtxView, post: CtxView, r: Result<Value, Error>) -> bool {
        post == pre && if pre.value_usable(Value::Array(self)) {
            r == Ok::<Value, Error>(Value::Array(self))
        } else {
            r matches Err(e) && to_js_error(e, "array"@, "array"@)
        }
    }

    fn to_value(self, mv8: &mut MiniV8) -> (r: Result<Value, Error>) {
        if mv8.value_backed(&Value::Array(self)) {
            Ok(Value::Array(self))
        } else {
            Err(Error::ToJsConversionError { from: "array", to: "array" })
        }
    }
}

impl FromValue for crate::value::Array {
    /// Only an array converts; any other value is a conversion error
    /// naming both types.
    open spec fn from_value_spec(value: Value, pre: CtxView, post: CtxView, r: Result<Self, Error>) -> bool {
        post == pre && match value {
            Value::Array(a) => r == Ok::<crate::value::Array, Error>(a),
            _ => (r matches Err(e) && from_js_error(e, kind_name_of(value), "Array"@)),
        }
    }

    fn from_value(value: Value, mv8: &mut MiniV8) -> (r: Result<Self, Error>) {
        match value {
            Value::Array(a) => Ok(a),
            value => Err(Error::FromJsConversionError { from: value.kind_name(), to: "Array" }),
        }
    }
}

impl ToValue for crate::value::Function {
    open spec fn to_value_spec(self, pre: CtxView, post: CtxView, r: Result<Value, Error>) -> bool {
        post == pre && if pre.value_usable(Value::Function(self)) {
            r == Ok::<Value, Error>(Value::Function(self))
        } else {
            r matches Err(e) && to_js_error(e, "function"@, "function"@)
        }
    }

    fn to_value(self, mv8: &mut MiniV8) -> (r: Result<Value, Error>) {
        if mv8.value_backed(&Value::Function(self)) {
            Ok(Value::Function(self))
        } else {
            Err(Error::ToJsConversionError { from: "function", to: "function" })
        }
    }
}

impl FromValue for crate::value::Function {
    open spec fn from_value_spec(value: Value, pre: CtxView, post: CtxView, r: Result<Self, Error>) -> bool {
        post == pre && match value {
            Value::Function(f) => r == Ok::<crate::value::Function, Error>(f),
            _ => (r matches Err(e) && from_js_error(e, kind_name_of(value), "Function"@)),
        }
    }

    fn from_value(value: Value, mv8: &mut MiniV8) -> (r: Result<Self, Error>) {
        match value {
            Value::Function(f) => Ok(f),
            value => Err(Error::FromJsConversionError { from: value.kind_name(), to: "Function" }),
        }
    }
}

impl ToValue for crate::value::Object {
    open spec fn to_value_spec(self, pre: CtxView, post: CtxView, r: Result<Value, Error>) -> bool {
        post == pre && if pre.value_usable(Value::Object(self)) {
            r == Ok::<Value, Error>(Value::Object(self))
        } else {
            r matches Err(e) && to_js_error(e, "object"@, "object"@)
        }
    }

    fn to_value(self, mv8: &mut MiniV8) -> (r: Result<Value, Error>) {
        if mv8.value_backed(&Value::Object(self)) {
            Ok(Value::Object(self))
        } else {
            Err(Error::ToJsConversionError { from: "object", to: "object" })
        }
    }
}

impl FromValue for crate::value::Object {
    open spec fn from_value_spec(value: Value, pre: CtxView, post: CtxView, r: Result<Self, Error>) -> bool {
        post == pre && match value {
            Value::Object(o) => r == Ok::<crate::value::Object, Error>(o),
            _ => (r matches Err(e) && from_js_error(e, kind_name_of(value), "Object"@)),
        }
    }

    fn from_value(value: Value, mv8: &mut MiniV8) -> (r: Result<Self, Error>) {
        match value {
            Value::Object(o) => Ok(o),
            value => Err(Error::FromJsConversionError { from: value.kind_name(), to: "Object" }),
        }
    }
}

impl ToValue for String {
    /// The text goes into a fresh engine string slot.
    open spec fn to_value_spec(self, pre: CtxView, post: CtxView, r: Result<Value, Error>) -> bool {
        post == pre.after_alloc(DataView::Text(self@)) && r == Ok::<Value, Error>(
            Value::String(JsString { handle: pre.fresh_handle() }),
        )
    }

    fn to_value(self, mv8: &mut MiniV8) -> (r: Result<Value, Error>) {
        Ok(Value::String(mv8.create_string(self.as_str())))
    }
}

impl FromValue for String {
    /// Any value coerces to its text; this never fails.
    open spec fn from_value_spec(value: Value, pre: CtxView, post: CtxView, r: Result<Self, Error>) -> bool {
        &&& r matches Ok(s) && s@ == to_text(pre, value)
        &&& match value {
            Value::String(_) => post == pre,
            _ => post == pre.after_alloc(DataView::Text(to_text(pre, value))),
        }
    }

    fn from_value(value: Value, mv8: &mut MiniV8) -> (r: Result<Self, Error>) {
        let ghost pre = mv8@;
        match value.coerce_string(mv8) {
            Ok(js) => {
                proof {
                    if !(value is String) {
                        assert(DataView::Text(to_text(pre, value))->Text_0 == to_text(pre, value));
                    }
                }
                Ok(js.to_string(mv8))
            },
            Err(e) => Err(e),
        }
    }
}

impl<'a> ToValue for &'a str {
    /// The text goes into a fresh engine string slot.
    open spec fn to_value_spec(self, pre: CtxView, post: CtxView, r: Result<Value, Error>) -> bool {
        post == pre.after_alloc(DataView::Text(self@)) && r == Ok::<Value, Error>(
            Value::String(JsString { handle: pre.fresh_handle() }),
        )
    }

    fn to_value(self, mv8: &mut MiniV8) -> (r: Result<Value, Error>) {
        Ok(Value::String(mv8.create_string(self)))
    }
}

impl ToValue for u8 {
    open spec fn to_value_spec(self, pre: CtxView, post: CtxView, r: Result<Value, Error>) -> bool {
        post == pre && r == Ok::<Value, Error>(Value::Number(int_to_bits(self as int)))
    }

    fn to_value(self, mv8: &mut MiniV8) -> (r: Result<Value, Error>) {
        let bits = dbl_encode(self as u64, false);
        proof {
            assert(bits == int_to_bits(self as int));
        }
        Ok(Value::Number(bits))
    }
}

impl FromValue for u8 {
    /// Any value coerces to a number, which truncates and saturates into
    /// the type's range, NaN going to zero; this never fails.
    open spec fn from_value_spec(value: Value, pre: CtxView, post: CtxView, r: Result<Self, Error>) -> bool {
        post == pre && r == Ok::<u8, Error>(bits_to_uint(to_number_bits(pre, value), 0xFF) as u8)
    }

    fn from_value(value: Value, mv8: &mut MiniV8) -> (r: Result<Self, Error>) {
        let bits = match value.coerce_number(mv8) {
            Ok(b) => b,
            Err(e) => return Err(e),
        };
        let t = number_to_u64(bits);
        let out: u8 = if t > 0xFF { 0xFF } else { t as u8 };
        proof {
            assert(out as int == bits_to_uint(bits, 0xFF));
        }
        Ok(out)
    }
}

impl ToValue for u16 {
    open spec fn to_value_spec(self, pre: CtxView, post: CtxView, r: Result<Value, Error>) -> bool {
        post == pre && r == Ok::<Value, Error>(Value::Number(int_to_bits(self as int)))
    }

    fn to_value(self, mv8: &mut MiniV8) -> (r: Result<Value, Error>) {
        let bits = dbl_encode(self as u64, false);
        proof {
            assert(bits == int_to_bits(self as int));
        }
        Ok(Value::Number(bits))
    }
}

impl FromValue for u16 {
    open spec fn from_value_spec(value: Value, pre: CtxView, post: CtxView, r: Result<Self, Error>) -> bool {
        post == pre && r == Ok::<u16, Error>(bits_to_uint(to_number_bits(pre, value), 0xFFFF) as u16)
    }

    fn from_value(value: Value, mv8: &mut MiniV8) -> (r: Result<Self, Error>) {
        let bits = match value.coerce_number(mv8) {
            Ok(b) => b,
            Err(e) => return Err(e),
        };
        let t = number_to_u64(bits);
        let out: u16 = if t > 0xFFFF { 0xFFFF } else { t as u16 };
        proof {
            assert(out as int == bits_to_uint(bits, 0xFFFF));
        }
        Ok(out)
    }
}

impl ToValue for u32 {
    open spec fn to_value_spec(self, pre: CtxView, post: CtxView, r: Result<Value, Error>) -> bool {
        post == pre && r == Ok::<Value, Error>(Value::Number(int_to_bits(self as int)))
    }

    fn to_value(self, mv8: &mut MiniV8) -> (r: Result<Value, Error>) {
        let bits = dbl_encode(self as u64, false);
        proof {
            assert(bits == int_to_bits(self as int));
        }
        Ok(Value::Number(bits))
    }
}

impl FromValue for u32 {
    open spec fn from_value_spec(value: Value, pre: CtxView, post: CtxView, r: Result<Self, Error>) -> bool {
        post == pre && r == Ok::<u32, Error>(
            bits_to_uint(to_number_bits(pre, value), 0xFFFF_FFFF) as u32,
        )
    }

    fn from_value(value: Value, mv8: &mut MiniV8) -> (r: Result<Self, Error>) {
        let bits = match value.coerce_number(mv8) {
            Ok(b) => b,
            Err(e) => return Err(e),
        };
        let t = number_to_u64(bits);
        let out: u32 = if t > 0xFFFF_FFFF { 0xFFFF_FFFF } else { t as u32 };
        proof {
            assert(out as int == bits_to_uint(bits, 0xFFFF_FFFF));
        }
        Ok(out)
    }
}

impl ToValue for u64 {
    open spec fn to_value_spec(self, pre: CtxView, post: CtxView, r: Result<Value, Error>) -> bool {
        post == pre && r == Ok::<Value, Error>(Value::Number(int_to_bits(self as int)))
    }

    fn to_value(self, mv8: &mut MiniV8) -> (r: Result<Value, Error>) {
        let bits = dbl_encode(self, false);
        proof {
            assert(bits == int_to_bits(self as int));
        }
        Ok(Value::Number(bits))
    }
}

impl FromValue for u64 {
    open spec fn from_value_spec(value: Value, pre: CtxView, post: CtxView, r: Result<Self, Error>) -> bool {
        post == pre && r == Ok::<u64, Error>(
            bits_to_uint(to_number_bits(pre, value), u64::MAX as int) as u64,
        )
    }

    fn from_value(value: Value, mv8: &mut MiniV8) -> (r: Result<Self, Error>) {
        let bits = match value.coerce_number(mv8) {
            Ok(b) => b,
            Err(e) => return Err(e),
        };
        Ok(number_to_u64(bits))
    }
}

impl ToValue for usize {
    open spec fn to_value_spec(self, pre: CtxView, post: CtxView, r: Result<Value, Error>) -> bool {
        post == pre && r == Ok::<Value, Error>(Value::Number(int_to_bits(self as int)))
    }

    fn to_value(self, mv8: &mut MiniV8) -> (r: Result<Value, Error>) {
        let bits = dbl_encode(self as u64, false);
        proof {
            assert(bits == int_to_bits(self as int));
        }
        Ok(Value::Number(bits))
    }
}

impl FromValue for usize {
    open spec fn from_value_spec(value: Value, pre: CtxView, post: CtxView, r: Result<Self, Error>) -> bool {
        post == pre && r == Ok::<usize, Error>(
            bits_to_uint(to_number_bits(pre, value), usize::MAX as int) as usize,
        )
    }

    fn from_value(value: Value, mv8: &mut MiniV8) -> (r: Result<Self, Error>) {
        let bits = match value.coerce_number(mv8) {
            Ok(b) => b,
            Err(e) => return Err(e),
        };
        let t = number_to_u64(bits);
        let out: usize = if t > usize::MAX as u64 { usize::MAX } else { t as usize };
        proof {
            assert(out as int == bits_to_uint(bits, usize::MAX as int));
        }
        Ok(out)
    }
}

impl ToValue for i8 {
    open spec fn to_value_spec(self, pre: CtxView, post: CtxView, r: Result<Value, Error>) -> bool {
        post == pre && r == Ok::<Value, Error>(Value::Number(int_to_bits(self as int)))
    }

    fn to_value(self, mv8: &mut MiniV8) -> (r: Result<Value, Error>) {
        let neg = self < 0;
        let mag: u64 = if self >= 0 { self as u64 } else { (-(self as i64)) as u64 };
        let bits = dbl_encode(mag, neg);
        proof {
            assert(bits == int_to_bits(self as int));
        }
        Ok(Value::Number(bits))
    }
}

impl FromValue for i8 {
    open spec fn from_value_spec(value: Value, pre: CtxView, post: CtxView, r: Result<Self, Error>) -> bool {
        post == pre && r == Ok::<i8, Error>(
            bits_to_sint(to_number_bits(pre, value), -0x80, 0x7F) as i8,
        )
    }

    fn from_value(value: Value, mv8: &mut MiniV8) -> (r: Result<Self, Error>) {
        let bits = match value.coerce_number(mv8) {
            Ok(b) => b,
            Err(e) => return Err(e),
        };
        let t = number_to_i64(bits);
        let out: i8 = if t < -0x80 { -0x80 } else if t > 0x7F { 0x7F } else { t as i8 };
        proof {
            assert(out as int == bits_to_sint(bits, -0x80, 0x7F));
        }
        Ok(out)
    }
}

impl ToValue for i16 {
    open spec fn to_value_spec(self, pre: CtxView, post: CtxView, r: Result<Value, Error>) -> bool {
        post == pre && r == Ok::<Value, Error>(Value::Number(int_to_bits(self as int)))
    }

    fn to_value(self, mv8: &mut MiniV8) -> (r: Result<Value, Error>) {
        let neg = self < 0;
        let mag: u64 = if self >= 0 { self as u64 } else { (-(self as i64)) as u64 };
        let bits = dbl_encode(mag, neg);
        proof {
            assert(bits == int_to_bits(self as int));
        }
        Ok(Value::Number(bits))
    }
}

impl FromValue for i16 {
    open spec fn from_value_spec(value: Value, pre: CtxView, post: CtxView, r: Result<Self, Error>) -> bool {
        post == pre && r == Ok::<i16, Error>(
            bits_to_sint(to_number_bits(pre, value), -0x8000, 0x7FFF) as i16,
        )
    }

    fn from_value(value: Value, mv8: &mut MiniV8) -> (r: Result<Self, Error>) {
        let bits = match value.coerce_number(mv8) {
            Ok(b) => b,
            Err(e) => return Err(e),
        };
        let t = number_to_i64(bits);
        let out: i16 = if t < -0x8000 { -0x8000 } else if t > 0x7FFF { 0x7FFF } else { t as i16 };
        proof {
            assert(out as int == bits_to_sint(bits, -0x8000, 0x7FFF));
        }
        Ok(out)
    }
}

impl ToValue for i32 {
    open spec fn to_value_spec(self, pre: CtxView, post: CtxView, r: Result<Value, Error>) -> bool {
        post == pre && r == Ok::<Value, Error>(Value::Number(int_to_bits(self as int)))
    }

    fn to_value(self, mv8: &mut MiniV8) -> (r: Result<Value, Error>) {
        let neg = self < 0;
        let mag: u64 = if self >= 0 { self as u64 } else { (-(self as i64)) as u64 };
        let bits = dbl_encode(mag, neg);
        proof {
            assert(bits == int_to_bits(self as int));
        }
        Ok(Value::Number(bits))
    }
}

impl FromValue for i32 {
    open spec fn from_value_spec(value: Value, pre: CtxView, post: CtxView, r: Result<Self, Error>) -> bool {
        post == pre && r == Ok::<i32, Error>(
            bits_to_sint(to_number_bits(pre, value), -0x80000000, 0x7FFFFFFF) as i32,
        )
    }

    fn from_value(value: Value, mv8: &mut MiniV8) -> (r: Result<Self, Error>) {
        let bits = match value.coerce_number(mv8) {
            Ok(b) => b,
            Err(e) => return Err(e),
        };
        let t = number_to_i64(bits);
        let out: i32 = if t < -0x80000000 {
            -0x80000000
        } else if t > 0x7FFFFFFF {
            0x7FFFFFFF
        } else {
            t as i32
        };
        proof {
            assert(out as int == bits_to_sint(bits, -0x80000000, 0x7FFFFFFF));
        }
        Ok(out)
    }
}

impl ToValue for i64 {
    open spec fn to_value_spec(self, pre: CtxView, post: CtxView, r: Result<Value, Error>) -> bool {
        post == pre && r == Ok::<Value, Error>(Value::Number(int_to_bits(self as int)))
    }

    fn to_value(self, mv8: &mut MiniV8) -> (r: Result<Value, Error>) {
        let neg = self < 0;
        let mag: u64 = if self >= 0 {
            self as u64
        } else if self == i64::MIN {
            0x8000000000000000
        } else {
            (-self) as u64
        };
        let bits = dbl_encode(mag, neg);
        proof {
            assert(bits == int_to_bits(self as int));
        }
        Ok(Value::Number(bits))
    }
}

impl FromValue for i64 {
    open spec fn from_value_spec(value: Value, pre: CtxView, post: CtxView, r: Result<Self, Error>) -> bool {
        post == pre && r == Ok::<i64, Error>(
            bits_to_sint(to_number_bits(pre, value), i64::MIN as int, i64::MAX as int) as i64,
        )
    }

    fn from_value(value: Value, mv8: &mut MiniV8) -> (r: Result<Self, Error>) {
        let bits = match value.coerce_number(mv8) {
            Ok(b) => b,
            Err(e) => return Err(e),
        };
        Ok(number_to_i64(bits))
    }
}

impl ToValue for isize {
    open spec fn to_value_spec(self, pre: CtxView, post: CtxView, r: Result<Value, Error>) -> bool {
        post == pre && r == Ok::<Value, Error>(Value::Number(int_to_bits(self as int)))
    }

    fn to_value(self, mv8: &mut MiniV8) -> (r: Result<Value, Error>) {
        (self as i64).to_value(mv8)
    }
}

impl FromValue for isize {
    open spec fn from_value_spec(value: Value, pre: CtxView, post: CtxView, r: Result<Self, Error>) -> bool {
        post == pre && r == Ok::<isize, Error>(
            bits_to_sint(to_number_bits(pre, value), isize::MIN as int, isize::MAX as int) as isize,
        )
    }

    fn from_value(value: Value, mv8: &mut MiniV8) -> (r: Result<Self, Error>) {
        let bits = match value.coerce_number(mv8) {
            Ok(b) => b,
            Err(e) => return Err(e),
        };
        let t = number_to_i64(bits);
        let out: isize = if t < isize::MIN as i64 {
            isize::MIN
        } else if t > isize::MAX as i64 {
            isize::MAX
        } else {
            t as isize
        };
        proof {
            assert(out as int == bits_to_sint(bits, isize::MIN as int, isize::MAX as int));
        }
        Ok(out)
    }
}

impl<T: ToValue> ToValue for Vec<T> {
    /// A host sequence becomes a fresh array whose elements are, in order,
    /// possible conversions of the host elements; an element's failure, or
    /// a sequence past the array-index bound, is the error.
    open spec fn to_value_spec(self, pre: CtxView, post: CtxView, r: Result<Value, Error>) -> bool {
        match r {
            Ok(v) => {
                &&& v == Value::Array(crate::value::Array { handle: pre.fresh_handle() })
                &&& pre.slots.len() < post.slots.len()
                &&& post.slots[pre.slots.len() as int].data matches DataView::Arr(vs) && vs.len()
                    == self@.len() && (exists|ws: Seq<(CtxView, CtxView)>|
                    #[trigger] ws.len() == vs.len() && forall|i: int|
                        0 <= i < vs.len() ==> self@[i].to_value_spec(
                            (#[trigger] ws[i]).0,
                            ws[i].1,
                            Ok(vs[i]),
                        ))
            },
            Err(e) => (exists|i: int, p2: CtxView, q2: CtxView|
                0 <= i < self@.len() && #[trigger] self@[i].to_value_spec(p2, q2, Err(e)))
                || to_js_error(e, "array"@, "array"@),
        }
    }

    fn to_value(self, mv8: &mut MiniV8) -> (r: Result<Value, Error>) {
        let ghost orig = mv8@;
        let ghost me = self;
        let ghost all = self@;
        let arr = mv8.create_array();
        let ghost s = arr.handle.slot as int;
        let mut v = self;
        let mut count: u64 = 0;
        let ghost mut ws: Seq<(CtxView, CtxView)> = Seq::empty();
        proof {
            assert(mv8@.extends(orig));
            assert(crate::mini_v8::DataView::Arr(Seq::<Value>::empty())->Arr_0
                =~= Seq::<Value>::empty());
            assert(v@ =~= all.subrange(0, all.len() as int));
        }
        while v.len() > 0
            invariant
                mv8@.wf(),
                mv8@.alive,
                mv8@.extends(orig),
                mv8@.value_usable(Value::Array(arr)),
                arr.handle == orig.fresh_handle(),
                s == arr.handle.slot as int,
                arr.handle.slot == orig.slots.len(),
                mv8@.slots[s].data is Arr,
                count == crate::mini_v8::arr_of(mv8@.slots[s].data).len(),
                count + v@.len() == all.len(),
                v@ == all.subrange(count as int, all.len() as int),
                ws.len() == count,
                forall|j: int| #![trigger ws[j]]
                    0 <= j < count ==> all[j].to_value_spec(
                        ws[j].0,
                        ws[j].1,
                        Ok(crate::mini_v8::arr_of(mv8@.slots[s].data)[j]),
                    ),
            decreases v.len(),
        {
            let ghost step = mv8@;
            let x = v.remove(0);
            proof {
                assert(x == all[count as int]);
                assert(v@ =~= all.subrange(count as int + 1, all.len() as int));
            }
            let val = match x.to_value(mv8) {
                Ok(val) => val,
                Err(e) => {
                    proof {
                        lemma_extends_trans(orig, step, mv8@);
                        assert(all[count as int].to_value_spec(step, mv8@, Err(e)));
                        assert(me.to_value_spec(orig, mv8@, Err(e)));
                    }
                    return Err(e);
                },
            };
            proof {
                lemma_extends_trans(orig, step, mv8@);
                lemma_value_usable_extends(step, mv8@, Value::Array(arr));
            }
            if count > crate::object::MAX_ARRAY_INDEX as u64 {
                proof {
                    assert(me.to_value_spec(
                        orig,
                        mv8@,
                        Err(Error::ToJsConversionError { from: "array", to: "array" }),
                    ));
                }
                return Err(Error::ToJsConversionError { from: "array", to: "array" });
            }
            let ghost step2 = mv8@;
            arr.push(mv8, val);
            proof {
                lemma_extends_local_write(
                    orig,
                    step2,
                    mv8@,
                    arr.handle.slot as int,
                    mv8@.slots[arr.handle.slot as int].data,
                );
                ws = ws.push((step, step2));
                let prev = crate::mini_v8::arr_of(step.slots[s].data);
                let cur = crate::mini_v8::arr_of(mv8@.slots[s].data);
                assert(cur == crate::mini_v8::arr_of(step2.slots[s].data).push(val));
                assert(crate::mini_v8::arr_of(step2.slots[s].data) == prev);
                assert(cur[count as int] == val);
                assert forall|j: int| #![trigger ws[j]] 0 <= j < count + 1 implies
                    all[j].to_value_spec(ws[j].0, ws[j].1, Ok(cur[j])) by {
                    if j < count {
                        assert(cur[j] == prev[j]);
                        assert(ws[j] == ws.drop_last()[j]);
                    } else {
                        assert(ws[j] == (step, step2));
                        assert(all[j].to_value_spec(step, step2, Ok(cur[j])));
                    }
                }
            }
            count = count + 1;
        }
        let result = Value::Array(arr);
        proof {
            let vs = crate::mini_v8::arr_of(mv8@.slots[s].data);
            assert(vs.len() == me@.len());
            assert(mv8@.slots[orig.slots.len() as int].data matches DataView::Arr(vs2) && vs2
                == vs);
            assert(ws.len() == vs.len());
            assert(forall|i: int|
                0 <= i < vs.len() ==> me@[i].to_value_spec(
                    (#[trigger] ws[i]).0,
                    ws[i].1,
                    Ok(vs[i]),
                ));
            assert(me.to_value_spec(orig, mv8@, Ok(result)));
        }
        Ok(result)
    }
}

impl<T: FromValue> FromValue for Vec<T> {
    /// An array becomes the host sequence of its converted elements,
    /// element for element in order; any other value is refused.
    open spec fn from_value_spec(value: Value, pre: CtxView, post: CtxView, r: Result<Self, Error>) -> bool {
        match value {
            Value::Array(a) => {
                let elems = crate::mini_v8::arr_of(pre.slots[a.handle.slot as int].data);
                match r {
                    Ok(out) => out@.len() == elems.len() && (exists|ws: Seq<(CtxView, CtxView)>|
                        #[trigger] ws.len() == elems.len() && forall|i: int|
                            0 <= i < elems.len() ==> T::from_value_spec(
                                elems[i],
                                (#[trigger] ws[i]).0,
                                ws[i].1,
                                Ok(out@[i]),
                            )),
                    Err(e) => exists|i: int, p2: CtxView, q2: CtxView|
                        0 <= i < elems.len() && #[trigger] T::from_value_spec(
                            elems[i],
                            p2,
                            q2,
                            Err(e),
                        ),
                }
            },
            _ => post == pre && (r matches Err(e) && from_js_error(e, kind_name_of(value), "Vec"@)),
        }
    }

    fn from_value(value: Value, mv8: &mut MiniV8) -> (r: Result<Self, Error>) {
        let a = match value {
            Value::Array(a) => a,
            value => {
                return Err(Error::FromJsConversionError { from: value.kind_name(), to: "Vec" });
            },
        };
        let ghost orig = mv8@;
        let mut elems = a.elements(mv8);
        let ghost all = elems@;
        proof {
            assert(mv8@.data_ok(mv8@.slots[a.handle.slot as int].data));
            assert(crate::mini_v8::DataView::Arr(elems@)->Arr_0 == elems@);
            assert(forall|i: int| 0 <= i < all.len() ==> orig.value_ok(#[trigger] all[i]));
            assert(elems@ =~= all.subrange(0, all.len() as int));
        }
        let mut out: Vec<T> = Vec::new();
        let ghost mut ws: Seq<(CtxView, CtxView)> = Seq::empty();
        while elems.len() > 0
            invariant
                mv8@.wf(),
                mv8@.alive,
                mv8@.extends(orig),
                all == crate::mini_v8::arr_of(orig.slots[a.handle.slot as int].data),
                out@.len() + elems@.len() == all.len(),
                elems@ == all.subrange(out@.len() as int, all.len() as int),
                forall|i: int| 0 <= i < all.len() ==> orig.value_ok(#[trigger] all[i]),
                ws.len() == out@.len(),
                forall|j: int| #![trigger ws[j]]
                    0 <= j < out@.len() ==> T::from_value_spec(all[j], ws[j].0, ws[j].1, Ok(out@[j])),
            decreases elems.len(),
        {
            let ghost done = out@.len() as int;
            let x = elems.remove(0);
            proof {
                assert(x == all[done]);
                assert(elems@ =~= all.subrange(done + 1, all.len() as int));
                lemma_value_ok_extends(orig, mv8@, x);
            }
            let ghost step = mv8@;
            let adopted = mv8.adopt_value(x);
            proof {
                lemma_extends_trans(orig, step, mv8@);
            }
            let ghost step2 = mv8@;
            let t = match T::from_value(adopted, mv8) {
                Ok(t) => t,
                Err(e) => {
                    proof {
                        lemma_extends_trans(orig, step2, mv8@);
                        assert(T::from_value_spec(all[done], step2, mv8@, Err(e)));
                        assert(<Vec<T>>::from_value_spec(value, orig, mv8@, Err(e)));
                    }
                    return Err(e);
                },
            };
            let ghost out0 = out@;
            proof {
                lemma_extends_trans(orig, step2, mv8@);
            }
            out.push(t);
            proof {
                ws = ws.push((step2, mv8@));
                assert(out@ == out0.push(t));
                assert forall|j: int| #![trigger ws[j]] 0 <= j < out@.len() implies
                    T::from_value_spec(all[j], ws[j].0, ws[j].1, Ok(out@[j])) by {
                    if j < out0.len() {
                        assert(out@[j] == out0[j]);
                        assert(ws[j] == ws.drop_last()[j]);
                    } else {
                        assert(out@[j] == t);
                        assert(ws[j] == (step2, mv8@));
                    }
                }
            }
        }
        proof {
            assert(ws.len() == all.len());
            assert(forall|i: int|
                0 <= i < all.len() ==> T::from_value_spec(
                    all[i],
                    (#[trigger] ws[i]).0,
                    ws[i].1,
                    Ok(out@[i]),
                ));
            assert((Ok::<Vec<T>, Error>(out))->Ok_0 == out);
            assert(<Vec<T>>::from_value_spec(value, orig, mv8@, Ok(out)));
        }
        Ok(out)
    }
}

/// A collection of bridge values, as used for function arguments: reading
/// past the end yields undefined, the way a JavaScript call treats missing
/// arguments.
#[derive(Clone, Debug)]
pub struct Values(pub Vec<Value>);

impl Values {
    /// Creates an empty collection.
    pub fn new() -> (r: Values)
        ensures
            r.0@ == Seq::<Value>::empty(),
    {
        Values(Vec::new())
    }

    /// Wraps a vector of values.
    pub fn from_vec(vec: Vec<Value>) -> (r: Values)
        ensures
            r.0 == vec,
    {
        Values(vec)
    }

    /// Unwraps into the vector of values.
    pub fn into_vec(self) -> (r: Vec<Value>)
        ensures
            r == self.0,
    {
        self.0
    }

    /// The value at the index, or undefined past the end.
    pub fn get(&self, index: usize) -> (r: Value)
        ensures
            r == values_get(self.0@, index as int),
    {
        if index < self.0.len() {
            self.0[index]
        } else {
            Value::Undefined
        }
    }

    /// Converts the value at the index into a host type; a missing value
    /// converts as undefined.
    pub fn from<T: FromValue>(&self, mv8: &mut MiniV8, index: usize) -> (r: Result<T, Error>)
        requires
            old(mv8)@.alive,
            old(mv8)@.wf(),
            old(mv8)@.values_usable(self.0@),
        ensures
            final(mv8)@.wf(),
            final(mv8)@.extends(old(mv8)@),
            T::from_value_spec(values_get(self.0@, index as int), old(mv8)@, final(mv8)@, r),
    {
        let v = self.get(index);
        T::from_value(v, mv8)
    }

    /// Converts the whole collection: a wrapper around
    /// `FromValues::from_values`.
    pub fn into<T: FromValues>(self, mv8: &mut MiniV8) -> (r: Result<T, Error>)
        requires
            old(mv8)@.alive,
            old(mv8)@.wf(),
            old(mv8)@.values_usable(self.0@),
        ensures
            final(mv8)@.wf(),
            final(mv8)@.extends(old(mv8)@),
            T::from_values_spec(self.0@, old(mv8)@, final(mv8)@, r),
    {
        T::from_values(self, mv8)
    }

    /// How many values the collection holds.
    pub fn len(&self) -> (r: usize)
        ensures
            r == self.0@.len(),
    {
        self.0.len()
    }
}

/// Wraps a variable number of values of one type: as the last element of a
/// tuple conversion it absorbs however many arguments remain, and going the
/// other way it flattens into that many arguments.
#[derive(Clone, Debug)]
pub struct Variadic<T>(pub Vec<T>);

impl<T> Variadic<T> {
    /// Creates an empty collector.
    pub fn new() -> (r: Variadic<T>)
        ensures
            r.0@ == Seq::<T>::empty(),
    {
        Variadic(Vec::new())
    }

    /// Wraps a vector.
    pub fn from_vec(vec: Vec<T>) -> (r: Variadic<T>)
        ensures
            r.0 == vec,
    {
        Variadic(vec)
    }

    /// Unwraps into the vector.
    pub fn into_vec(self) -> (r: Vec<T>)
        ensures
            r == self.0,
    {
        self.0
    }
}

/// Trait for types convertible to any number of bridge values, under the
/// same state discipline as `ToValue` and with each implementation's exact
/// behaviour pinned in its `to_values_spec`.
pub trait ToValues: Sized {
    /// The exact relation of the conversion.
    spec fn to_values_spec(self, pre: CtxView, post: CtxView, r: Result<Values, Error>) -> bool;

    /// Performs the conversion.
    fn to_values(self, mv8: &mut MiniV8) -> (r: Result<Values, Error>)
        requires
            old(mv8)@.alive,
            old(mv8)@.wf(),
        ensures
            final(mv8)@.wf(),
            final(mv8)@.extends(old(mv8)@),
            r matches Ok(vs) ==> final(mv8)@.values_usable(vs.0@),
            self.to_values_spec(old(mv8)@, final(mv8)@, r),
    ;
}

/// Trait for types built from an arbitrary number of bridge values, under
/// the same state discipline and with each implementation's exact behaviour
/// pinned in its `from_values_spec`. Excess values are ignored; missing
/// values convert as undefined.
pub trait FromValues: Sized {
    /// The exact relation of the conversion, over the argument list's
    /// values.
    spec fn from_values_spec(values: Seq<Value>, pre: CtxView, post: CtxView, r: Result<Self, Error>) -> bool;

    /// Performs the conversion.
    fn from_values(values: Values, mv8: &mut MiniV8) -> (r: Result<Self, Error>)
        requires
            old(mv8)@.alive,
            old(mv8)@.wf(),
            old(mv8)@.values_usable(values.0@),
        ensures
            final(mv8)@.wf(),
            final(mv8)@.extends(old(mv8)@),
            Self::from_values_spec(values.0@, old(mv8)@, final(mv8)@, r),
    ;
}

impl<T: ToValue> ToValues for T {
    /// A single convertible value is one bridge value.
    open spec fn to_values_spec(self, pre: CtxView, post: CtxView, r: Result<Values, Error>) -> bool {
        exists|rv: Result<Value, Error>|
            #[trigger] self.to_value_spec(pre, post, rv) && match rv {
                Ok(v) => r matches Ok(vs) && vs.0@ == seq![v],
                Err(e) => r == Err::<Values, Error>(e),
            }
    }

    fn to_values(self, mv8: &mut MiniV8) -> (r: Result<Values, Error>) {
        let ghost pre = mv8@;
        let ghost me = self;
        let rv = self.to_value(mv8);
        let ghost grv = rv;
        match rv {
            Ok(v) => {
                let out = Values(vec![v]);
                proof {
                    assert(out.0@ =~= seq![v]);
                    assert(me.to_value_spec(pre, mv8@, grv));
                    assert forall|i: int| 0 <= i < out.0@.len() implies mv8@.value_usable(
                        #[trigger] out.0@[i],
                    ) by {
                        assert(out.0@[i] == v);
                    }
                }
                Ok(out)
            },
            Err(e) => {
                proof {
                    assert(me.to_value_spec(pre, mv8@, grv));
                }
                Err(e)
            },
        }
    }
}

impl<T: FromValue> FromValues for T {
    /// A single host value converts from the first bridge value, or from
    /// undefined when none was supplied.
    open spec fn from_values_spec(values: Seq<Value>, pre: CtxView, post: CtxView, r: Result<Self, Error>) -> bool {
        T::from_value_spec(values_get(values, 0), pre, post, r)
    }

    fn from_values(values: Values, mv8: &mut MiniV8) -> (r: Result<Self, Error>) {
        T::from_value(values.get(0), mv8)
    }
}

impl<T: ToValue> ToValues for Variadic<T> {
    /// Each collected value becomes one argument, in order; an element's
    /// failure is the whole conversion's.
    open spec fn to_values_spec(self, pre: CtxView, post: CtxView, r: Result<Values, Error>) -> bool {
        match r {
            Ok(vs) => vs.0@.len() == self.0@.len() && (exists|ws: Seq<(CtxView, CtxView)>|
                #[trigger] ws.len() == self.0@.len() && forall|i: int|
                    0 <= i < self.0@.len() ==> self.0@[i].to_value_spec(
                        (#[trigger] ws[i]).0,
                        ws[i].1,
                        Ok(vs.0@[i]),
                    )),
            Err(e) => exists|i: int, p2: CtxView, q2: CtxView|
                0 <= i < self.0@.len() && #[trigger] self.0@[i].to_value_spec(p2, q2, Err(e)),
        }
    }

    fn to_values(self, mv8: &mut MiniV8) -> (r: Result<Values, Error>) {
        let ghost orig = mv8@;
        let ghost me = self;
        let ghost all = self.0@;
        let mut v = self.0;
        let mut out: Vec<Value> = Vec::new();
        let ghost mut ws: Seq<(CtxView, CtxView)> = Seq::empty();
        proof {
            assert(v@ =~= all.subrange(0, all.len() as int));
        }
        while v.len() > 0
            invariant
                mv8@.wf(),
                mv8@.alive,
                mv8@.extends(orig),
                mv8@.values_usable(out@),
                out@.len() + v@.len() == all.len(),
                v@ == all.subrange(out@.len() as int, all.len() as int),
                ws.len() == out@.len(),
                forall|j: int| #![trigger ws[j]]
                    0 <= j < out@.len() ==> all[j].to_value_spec(ws[j].0, ws[j].1, Ok(out@[j])),
            decreases v.len(),
        {
            let ghost done = out@.len() as int;
            let x = v.remove(0);
            proof {
                assert(x == all[done]);
                assert(v@ =~= all.subrange(done + 1, all.len() as int));
            }
            let ghost step = mv8@;
            let val = match x.to_value(mv8) {
                Ok(val) => val,
                Err(e) => {
                    proof {
                        lemma_extends_trans(orig, step, mv8@);
                        assert(all[done].to_value_spec(step, mv8@, Err(e)));
                        assert(me.to_values_spec(orig, mv8@, Err(e)));
                    }
                    return Err(e);
                },
            };
            let ghost out0 = out@;
            proof {
                lemma_extends_trans(orig, step, mv8@);
                lemma_values_usable_extends(step, mv8@, out@);
            }
            out.push(val);
            proof {
                ws = ws.push((step, mv8@));
                assert(out@ == out0.push(val));
                assert forall|j: int| #![trigger ws[j]] 0 <= j < out@.len() implies
                    all[j].to_value_spec(ws[j].0, ws[j].1, Ok(out@[j])) by {
                    if j < out0.len() {
                        assert(out@[j] == out0[j]);
                        assert(ws[j] == ws.drop_last()[j]);
                    } else {
                        assert(out@[j] == val);
                        assert(ws[j] == (step, mv8@));
                    }
                }
            }
        }
        let result = Values(out);
        proof {
            assert(result.0@.len() == me.0@.len());
            assert(ws.len() == me.0@.len());
            assert(forall|i: int|
                0 <= i < me.0@.len() ==> me.0@[i].to_value_spec(
                    (#[trigger] ws[i]).0,
                    ws[i].1,
                    Ok(result.0@[i]),
                ));
            assert(me.to_values_spec(orig, mv8@, Ok(result)));
        }
        Ok(result)
    }
}

impl<T: FromValue> FromValues for Variadic<T> {
    /// Every argument converts, in order, into one collected value; an
    /// element's failure is the whole conversion's.
    open spec fn from_values_spec(values: Seq<Value>, pre: CtxView, post: CtxView, r: Result<Self, Error>) -> bool {
        match r {
            Ok(out) => out.0@.len() == values.len() && (exists|ws: Seq<(CtxView, CtxView)>|
                #[trigger] ws.len() == values.len() && forall|i: int|
                    0 <= i < values.len() ==> T::from_value_spec(
                        values[i],
                        (#[trigger] ws[i]).0,
                        ws[i].1,
                        Ok(out.0@[i]),
                    )),
            Err(e) => exists|i: int, p2: CtxView, q2: CtxView|
                0 <= i < values.len() && #[trigger] T::from_value_spec(values[i], p2, q2, Err(e)),
        }
    }

    fn from_values(values: Values, mv8: &mut MiniV8) -> (r: Result<Self, Error>) {
        let ghost orig = mv8@;
        let n = values.len();
        let mut out: Vec<T> = Vec::new();
        let mut i: usize = 0;
        let ghost mut ws: Seq<(CtxView, CtxView)> = Seq::empty();
        while i < n
            invariant
                0 <= i <= n,
                n == values.0@.len(),
                mv8@.wf(),
                mv8@.alive,
                mv8@.extends(orig),
                orig.values_usable(values.0@),
                out@.len() == i,
                ws.len() == i,
                forall|j: int| #![trigger out@[j]]
                    0 <= j < i ==> T::from_value_spec(values.0@[j], ws[j].0, ws[j].1, Ok(out@[j])),
            decreases n - i,
        {
            let v = values.get(i);
            let ghost step = mv8@;
            proof {
                lemma_value_usable_extends(orig, mv8@, values.0@[i as int]);
            }
            let t = match T::from_value(v, mv8) {
                Ok(t) => t,
                Err(e) => {
                    proof {
                        lemma_extends_trans(orig, step, mv8@);
                        assert(T::from_value_spec(values.0@[i as int], step, mv8@, Err(e)));
                    }
                    return Err(e);
                },
            };
            let ghost out0 = out@;
            proof {
                lemma_extends_trans(orig, step, mv8@);
            }
            out.push(t);
            proof {
                ws = ws.push((step, mv8@));
                assert(out@ == out0.push(t));
                assert forall|j: int| #![trigger out@[j]] 0 <= j < out@.len() implies
                    T::from_value_spec(values.0@[j], ws[j].0, ws[j].1, Ok(out@[j])) by {
                    if j < out0.len() {
                        assert(out@[j] == out0[j]);
                        assert(ws[j] == ws.drop_last()[j]);
                    } else {
                        assert(out@[j] == t);
                        assert(ws[j] == (step, mv8@));
                    }
                }
            }
            i = i + 1;
        }
        let result = Variadic(out);
        proof {
            assert(result.0@.len() == values.0@.len());
            assert(ws.len() == values.0@.len());
            assert(forall|i: int|
                0 <= i < values.0@.len() ==> T::from_value_spec(
                    values.0@[i],
                    (#[trigger] ws[i]).0,
                    ws[i].1,
                    Ok(result.0@[i]),
                ));
            assert(<Variadic<T>>::from_values_spec(values.0@, orig, mv8@, Ok(result)));
        }
        Ok(result)
    }
}

impl<A: ToValue, Z: ToValues> ToValues for (A, Z) {
    /// The leading element converts to one value, the trailing one to the
    /// rest of the flat argument list, in that order.
    open spec fn to_values_spec(self, pre: CtxView, post: CtxView, r: Result<Values, Error>) -> bool {
        exists|mid: CtxView, ra: Result<Value, Error>|
            #[trigger] self.0.to_value_spec(pre, mid, ra) && match ra {
                Err(e) => post == mid && r == Err::<Values, Error>(e),
                Ok(va) => exists|rz: Result<Values, Error>|
                    #[trigger] self.1.to_values_spec(mid, post, rz) && match rz {
                        Err(e) => r == Err::<Values, Error>(e),
                        Ok(vz) => r matches Ok(out) && out.0@ == seq![va] + vz.0@,
                    },
            }
    }

    fn to_values(self, mv8: &mut MiniV8) -> (r: Result<Values, Error>) {
        let (a, z) = self;
        let ghost ga = a;
        let ghost gz = z;
        let ghost s0 = mv8@;
        let ra = a.to_value(mv8);
        let ghost gra = ra;
        let ghost s1 = mv8@;
        let va = match ra {
            Ok(v) => v,
            Err(e) => return Err(e),
        };
        let rz = z.to_values(mv8);
        let ghost grz = rz;
        let vz = match rz {
            Ok(v) => v,
            Err(e) => {
                proof {
                    lemma_extends_trans(s0, s1, mv8@);
                    assert(ga.to_value_spec(s0, s1, gra));
                    assert(gz.to_values_spec(s1, mv8@, grz));
                }
                return Err(e);
            },
        };
        proof {
            lemma_extends_trans(s0, s1, mv8@);
            lemma_value_usable_extends(s1, mv8@, va);
        }
        let mut out: Vec<Value> = vec![va];
        let mut rest = vz.into_vec();
        proof {
            assert(out@ =~= seq![va]);
        }
        out.append(&mut rest);
        proof {
            assert(ga.to_value_spec(s0, s1, gra));
            assert(gz.to_values_spec(s1, mv8@, grz));
        }
        Ok(Values(out))
    }
}

impl<A: FromValue, Z: FromValues> FromValues for (A, Z) {
    /// The leading element converts from the first value, the trailing one
    /// from everything after it.
    open spec fn from_values_spec(values: Seq<Value>, pre: CtxView, post: CtxView, r: Result<Self, Error>) -> bool {
        exists|mid: CtxView, ra: Result<A, Error>|
            #[trigger] A::from_value_spec(values_get(values, 0), pre, mid, ra) && match ra {
                Err(e) => post == mid && r == Err::<(A, Z), Error>(e),
                Ok(a) => exists|rz: Result<Z, Error>|
                    #[trigger] Z::from_values_spec(seq_suffix(values, 1), mid, post, rz) && match rz {
                        Err(e) => r == Err::<(A, Z), Error>(e),
                        Ok(z) => r == Ok::<(A, Z), Error>((a, z)),
                    },
            }
    }

    fn from_values(values: Values, mv8: &mut MiniV8) -> (r: Result<Self, Error>) {
        let ghost s0 = mv8@;
        let ra = A::from_value(values.get(0), mv8);
        let ghost gra = ra;
        let ghost s1 = mv8@;
        let a = match ra {
            Ok(a) => a,
            Err(e) => return Err(e),
        };
        let rest = values_suffix(&values, 1);
        proof {
            lemma_values_usable_extends(s0, mv8@, values.0@);
            assert(mv8@.values_usable(rest@));
        }
        let rz = Z::from_values(Values(rest), mv8);
        let ghost grz = rz;
        proof {
            lemma_extends_trans(s0, s1, mv8@);
            assert(A::from_value_spec(values_get(values.0@, 0), s0, s1, gra));
            assert(Z::from_values_spec(seq_suffix(values.0@, 1), s1, mv8@, grz));
        }
        match rz {
            Ok(z) => Ok((a, z)),
            Err(e) => Err(e),
        }
    }
}

impl<A: ToValue, B: ToValue, Z: ToValues> ToValues for (A, B, Z) {
    /// The leading element converts first, the remaining pair after it.
    open spec fn to_values_spec(self, pre: CtxView, post: CtxView, r: Result<Values, Error>) -> bool {
        exists|mid: CtxView, ra: Result<Value, Error>|
            #[trigger] self.0.to_value_spec(pre, mid, ra) && match ra {
                Err(e) => post == mid && r == Err::<Values, Error>(e),
                Ok(va) => exists|rz: Result<Values, Error>|
                    #[trigger] (self.1, self.2).to_values_spec(mid, post, rz) && match rz {
                        Err(e) => r == Err::<Values, Error>(e),
                        Ok(vz) => r matches Ok(out) && out.0@ == seq![va] + vz.0@,
                    },
            }
    }

    fn to_values(self, mv8: &mut MiniV8) -> (r: Result<Values, Error>) {
        let (a, b, z) = self;
        let ghost ga = a;
        let ghost gbz = (b, z);
        let ghost s0 = mv8@;
        let ra = a.to_value(mv8);
        let ghost gra = ra;
        let ghost s1 = mv8@;
        let va = match ra {
            Ok(v) => v,
            Err(e) => return Err(e),
        };
        let rz = (b, z).to_values(mv8);
        let ghost grz = rz;
        let vz = match rz {
            Ok(v) => v,
            Err(e) => {
                proof {
                    lemma_extends_trans(s0, s1, mv8@);
                    assert(ga.to_value_spec(s0, s1, gra));
                    assert(gbz.to_values_spec(s1, mv8@, grz));
                }
                return Err(e);
            },
        };
        proof {
            lemma_extends_trans(s0, s1, mv8@);
            lemma_value_usable_extends(s1, mv8@, va);
        }
        let mut out: Vec<Value> = vec![va];
        let mut rest = vz.into_vec();
        proof {
            assert(out@ =~= seq![va]);
        }
        out.append(&mut rest);
        proof {
            assert(ga.to_value_spec(s0, s1, gra));
            assert(gbz.to_values_spec(s1, mv8@, grz));
        }
        Ok(Values(out))
    }
}

impl<A: FromValue, B: FromValue, Z: FromValues> FromValues for (A, B, Z) {
    open spec fn from_values_spec(values: Seq<Value>, pre: CtxView, post: CtxView, r: Result<Self, Error>) -> bool {
        exists|mid: CtxView, ra: Result<A, Error>|
            #[trigger] A::from_value_spec(values_get(values, 0), pre, mid, ra) && match ra {
                Err(e) => post == mid && r == Err::<(A, B, Z), Error>(e),
                Ok(a) => exists|rz: Result<(B, Z), Error>|
                    #[trigger] <(B, Z)>::from_values_spec(seq_suffix(values, 1), mid, post, rz)
                        && match rz {
                        Err(e) => r == Err::<(A, B, Z), Error>(e),
                        Ok(bz) => r == Ok::<(A, B, Z), Error>((a, bz.0, bz.1)),
                    },
            }
    }

    fn from_values(values: Values, mv8: &mut MiniV8) -> (r: Result<Self, Error>) {
        let ghost s0 = mv8@;
        let ra = A::from_value(values.get(0), mv8);
        let ghost gra = ra;
        let ghost s1 = mv8@;
        let a = match ra {
            Ok(a) => a,
            Err(e) => return Err(e),
        };
        let rest = values_suffix(&values, 1);
        proof {
            lemma_values_usable_extends(s0, mv8@, values.0@);
            assert(mv8@.values_usable(rest@));
        }
        let rz = <(B, Z)>::from_values(Values(rest), mv8);
        let ghost grz = rz;
        proof {
            lemma_extends_trans(s0, s1, mv8@);
            assert(A::from_value_spec(values_get(values.0@, 0), s0, s1, gra));
            assert(<(B, Z)>::from_values_spec(seq_suffix(values.0@, 1), s1, mv8@, grz));
        }
        match rz {
            Ok(bz) => {
                let (b, z) = bz;
                Ok((a, b, z))
            },
            Err(e) => Err(e),
        }
    }
}

impl<A: ToValue, B: ToValue, C: ToValue, Z: ToValues> ToValues for (A, B, C, Z) {
    open spec fn to_values_spec(self, pre: CtxView, post: CtxView, r: Result<Values, Error>) -> bool {
        exists|mid: CtxView, ra: Result<Value, Error>|
            #[trigger] self.0.to_value_spec(pre, mid, ra) && match ra {
                Err(e) => post == mid && r == Err::<Values, Error>(e),
                Ok(va) => exists|rz: Result<Values, Error>|
                    #[trigger] (self.1, self.2, self.3).to_values_spec(mid, post, rz) && match rz {
                        Err(e) => r == Err::<Values, Error>(e),
                        Ok(vz) => r matches Ok(out) && out.0@ == seq![va] + vz.0@,
                    },
            }
    }

    fn to_values(self, mv8: &mut MiniV8) -> (r: Result<Values, Error>) {
        let (a, b, c, z) = self;
        let ghost ga = a;
        let ghost grest = (b, c, z);
        let ghost s0 = mv8@;
        let ra = a.to_value(mv8);
        let ghost gra = ra;
        let ghost s1 = mv8@;
        let va = match ra {
            Ok(v) => v,
            Err(e) => return Err(e),
        };
        let rz = (b, c, z).to_values(mv8);
        let ghost grz = rz;
        let vz = match rz {
            Ok(v) => v,
            Err(e) => {
                proof {
                    lemma_extends_trans(s0, s1, mv8@);
                    assert(ga.to_value_spec(s0, s1, gra));
                    assert(grest.to_values_spec(s1, mv8@, grz));
                }
                return Err(e);
            },
        };
        proof {
            lemma_extends_trans(s0, s1, mv8@);
            lemma_value_usable_extends(s1, mv8@, va);
        }
        let mut out: Vec<Value> = vec![va];
        let mut rest = vz.into_vec();
        proof {
            assert(out@ =~= seq![va]);
        }
        out.append(&mut rest);
        proof {
            assert(ga.to_value_spec(s0, s1, gra));
            assert(grest.to_values_spec(s1, mv8@, grz));
        }
        Ok(Values(out))
    }
}

impl<A: FromValue, B: FromValue, C: FromValue, Z: FromValues> FromValues for (A, B, C, Z) {
    open spec fn from_values_spec(values: Seq<Value>, pre: CtxView, post: CtxView, r: Result<Self, Error>) -> bool {
        exists|mid: CtxView, ra: Result<A, Error>|
            #[trigger] A::from_value_spec(values_get(values, 0), pre, mid, ra) && match ra {
                Err(e) => post == mid && r == Err::<(A, B, C, Z), Error>(e),
                Ok(a) => exists|rz: Result<(B, C, Z), Error>|
                    #[trigger] <(B, C, Z)>::from_values_spec(seq_suffix(values, 1), mid, post, rz)
                        && match rz {
                        Err(e) => r == Err::<(A, B, C, Z), Error>(e),
                        Ok(bcz) => r == Ok::<(A, B, C, Z), Error>((a, bcz.0, bcz.1, bcz.2)),
                    },
            }
    }

    fn from_values(values: Values, mv8: &mut MiniV8) -> (r: Result<Self, Error>) {
        let ghost s0 = mv8@;
        let ra = A::from_value(values.get(0), mv8);
        let ghost gra = ra;
        let ghost s1 = mv8@;
        let a = match ra {
            Ok(a) => a,
            Err(e) => return Err(e),
        };
        let rest = values_suffix(&values, 1);
        proof {
            lemma_values_usable_extends(s0, mv8@, values.0@);
            assert(mv8@.values_usable(rest@));
        }
        let rz = <(B, C, Z)>::from_values(Values(rest), mv8);
        let ghost grz = rz;
        proof {
            lemma_extends_trans(s0, s1, mv8@);
            assert(A::from_value_spec(values_get(values.0@, 0), s0, s1, gra));
            assert(<(B, C, Z)>::from_values_spec(seq_suffix(values.0@, 1), s1, mv8@, grz));
        }
        match rz {
            Ok(bcz) => {
                let (b, c, z) = bcz;
                Ok((a, b, c, z))
            },
            Err(e) => Err(e),
        }
    }
}

impl<A: ToValue, B: ToValue, C: ToValue, D: ToValue, Z: ToValues> ToValues for (A, B, C, D, Z) {
    open spec fn to_values_spec(self, pre: CtxView, post: CtxView, r: Result<Values, Error>) -> bool {
        exists|mid: CtxView, ra: Result<Value, Error>|
            #[trigger] self.0.to_value_spec(pre, mid, ra) && match ra {
                Err(e) => post == mid && r == Err::<Values, Error>(e),
                Ok(va) => exists|rz: Result<Values, Error>|
                    #[trigger] (self.1, self.2, self.3, self.4).to_values_spec(mid, post, rz)
                        && match rz {
                        Err(e) => r == Err::<Values, Error>(e),
                        Ok(vz) => r matches Ok(out) && out.0@ == seq![va] + vz.0@,
                    },
            }
    }

    fn to_values(self, mv8: &mut MiniV8) -> (r: Result<Values, Error>) {
        let (a, b, c, d, z) = self;
        let ghost ga = a;
        let ghost grest = (b, c, d, z);
        let ghost s0 = mv8@;
        let ra = a.to_value(mv8);
        let ghost gra = ra;
        let ghost s1 = mv8@;
        let va = match ra {
            Ok(v) => v,
            Err(e) => return Err(e),
        };
        let rz = (b, c, d, z).to_values(mv8);
        let ghost grz = rz;
        let vz = match rz {
            Ok(v) => v,
            Err(e) => {
                proof {
                    lemma_extends_trans(s0, s1, mv8@);
                    assert(ga.to_value_spec(s0, s1, gra));
                    assert(grest.to_values_spec(s1, mv8@, grz));
                }
                return Err(e);
            },
        };
        proof {
            lemma_extends_trans(s0, s1, mv8@);
            lemma_value_usable_extends(s1, mv8@, va);
        }
        let mut out: Vec<Value> = vec![va];
        let mut rest = vz.into_vec();
        proof {
            assert(out@ =~= seq![va]);
        }
        out.append(&mut rest);
        proof {
            assert(ga.to_value_spec(s0, s1, gra));
            assert(grest.to_values_spec(s1, mv8@, grz));
        }
        Ok(Values(out))
    }
}

impl<A: FromValue, B: FromValue, C: FromValue, D: FromValue, Z: FromValues> FromValues for (
    A,
    B,
    C,
    D,
    Z,
) {
    open spec fn from_values_spec(values: Seq<Value>, pre: CtxView, post: CtxView, r: Result<Self, Error>) -> bool {
        exists|mid: CtxView, ra: Result<A, Error>|
            #[trigger] A::from_value_spec(values_get(values, 0), pre, mid, ra) && match ra {
                Err(e) => post == mid && r == Err::<(A, B, C, D, Z), Error>(e),
                Ok(a) => exists|rz: Result<(B, C, D, Z), Error>|
                    #[trigger] <(B, C, D, Z)>::from_values_spec(
                        seq_suffix(values, 1),
                        mid,
                        post,
                        rz,
                    ) && match rz {
                        Err(e) => r == Err::<(A, B, C, D, Z), Error>(e),
                        Ok(t) => r == Ok::<(A, B, C, D, Z), Error>((a, t.0, t.1, t.2, t.3)),
                    },
            }
    }

    fn from_values(values: Values, mv8: &mut MiniV8) -> (r: Result<Self, Error>) {
        let ghost s0 = mv8@;
        let ra = A::from_value(values.get(0), mv8);
        let ghost gra = ra;
        let ghost s1 = mv8@;
        let a = match ra {
            Ok(a) => a,
            Err(e) => return Err(e),
        };
        let rest = values_suffix(&values, 1);
        proof {
            lemma_values_usable_extends(s0, mv8@, values.0@);
            assert(mv8@.values_usable(rest@));
        }
        let rz = <(B, C, D, Z)>::from_values(Values(rest), mv8);
        let ghost grz = rz;
        proof {
            lemma_extends_trans(s0, s1, mv8@);
            assert(A::from_value_spec(values_get(values.0@, 0), s0, s1, gra));
            assert(<(B, C, D, Z)>::from_values_spec(seq_suffix(values.0@, 1), s1, mv8@, grz));
        }
        match rz {
            Ok(t) => {
                let (b, c, d, z) = t;
                Ok((a, b, c, d, z))
            },
            Err(e) => Err(e),
        }
    }
}

/// The values from the given position on.
fn values_suffix(values: &Values, from: usize) -> (r: Vec<Value>)
    ensures
        r@ == seq_suffix(values.0@, from as int),
{
    let n = values.0.len();
    let mut r: Vec<Value> = Vec::new();
    let mut i: usize = from;
    while i < n
        invariant
            from <= i <= n || (from > n && i == from),
            n == values.0@.len(),
            r@.len() == i - from,
            forall|j: int| 0 <= j < r@.len() ==> #[trigger] r@[j] == values.0@[from + j],
        decreases n - i,
    {
        r.push(values.0[i]);
        i = i + 1;
    }
    proof {
        if from <= values.0@.len() {
            assert(r@ =~= values.0@.subrange(from as int, values.0@.len() as int));
        } else {
            assert(r@ =~= Seq::<Value>::empty());
        }
    }
    r
}

/// Replacing the data of a slot allocated after the original snapshot
/// leaves everything of the snapshot in place.
proof fn lemma_extends_local_write(orig: CtxView, pre: CtxView, post: CtxView, s: int, d: DataView)
    requires
        pre.extends(orig),
        s >= orig.slots.len(),
        0 <= s < pre.slots.len(),
        post == pre.with_slot_data(s, d),
    ensures
        post.extends(orig),
{
    assert forall|i: int|
        0 <= i < orig.slots.len() implies (#[trigger] post.slots[i]).data == orig.slots[i].data
        && post.slots[i].refs >= orig.slots[i].refs by {
        assert(post.slots[i] == pre.slots[i]);
    }
}

/// Booleans survive the conversion round trip: coercing the boolean
/// bridge value back to a boolean is the identity, whatever the context.
pub proof fn lemma_bool_round_trip(ctx: CtxView, b: bool)
    ensures
        truthy(ctx, Value::Boolean(b)) == b,
{
}

/// Strings survive the conversion round trip: the text written into a
/// fresh string slot is exactly the text read back out of that slot.
pub proof fn lemma_string_round_trip(ctx: CtxView, s: Seq<char>)
    ensures
        text_of(ctx.after_alloc(DataView::Text(s)).slots[ctx.slots.len() as int].data) == s,
{
    assert(DataView::Text(s)->Text_0 == s);
}

/// Integers within the exactly representable range survive the value
/// conversion round trip end to end: the number value an integer's
/// `to_value` is specified to produce is specified to convert back, by any
/// integer type's `from_value`, to the original integer whenever the type's
/// range holds it — here stated for the widest signed range.
pub proof fn lemma_value_int_round_trip(ctx: CtxView, x: int)
    requires
        -pow2(53) <= x <= pow2(53),
    ensures
        crate::number::bits_to_sint(
            to_number_bits(ctx, Value::Number(crate::number::int_to_bits(x))),
            i64::MIN as int,
            i64::MAX as int,
        ) == x,
{
    crate::number::lemma_int_round_trip(x);
}

/// Host strings survive the value conversion round trip end to end: the
/// string value `to_value` is specified to produce carries exactly the
/// host text, and `from_value` is specified to read that text back.
pub proof fn lemma_value_string_round_trip(ctx: CtxView, s: Seq<char>)
    requires
        ctx.slots.len() < usize::MAX,
    ensures
        to_text(
            ctx.after_alloc(DataView::Text(s)),
            Value::String(JsString { handle: ctx.fresh_handle() }),
        ) == s,
{
    assert(ctx.fresh_handle().slot == ctx.slots.len());
    assert(DataView::Text(s)->Text_0 == s);
}

/// Sequences of integers in the exactly representable range survive the
/// conversion round trip element for element: every element encoded as a
/// number and truncated back is itself.
pub proof fn lemma_int_seq_round_trip(ns: Seq<int>)
    requires
        forall|i: int|
            0 <= i < ns.len() ==> -pow2(53) <= #[trigger] ns[i] <= pow2(53),
    ensures
        forall|i: int|
            0 <= i < ns.len() ==> crate::number::bits_to_int(
                crate::number::int_to_bits(#[trigger] ns[i]),
            ) == ns[i],
{
    assert forall|i: int|
        0 <= i < ns.len() implies crate::number::bits_to_int(
        crate::number::int_to_bits(#[trigger] ns[i]),
    ) == ns[i] by {
        crate::number::lemma_int_round_trip(ns[i]);
    }
}

} // verus!
