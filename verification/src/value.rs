//! Fixed-size tagged values carried in registers and constant pools.
//!
//! Integers are normatively 56-bit: arithmetic wraps on the packed 56-bit
//! representation ([`i56_wrap`]). Floats are carried opaquely as IEEE-754
//! bit patterns; the host performs the actual floating-point arithmetic.

use vstd::arithmetic::div_mod::{lemma_mod_mod, lemma_mod_multiples_vanish};
use vstd::arithmetic::mul::{lemma_mul_is_commutative, lemma_mul_is_distributive_add};
use vstd::prelude::*;

use crate::error::{VMError, VMResult};
use crate::heap::Handle;

verus! {

/// Smallest packed 56-bit integer, `-(2^55)`.
pub const I56_MIN: i64 = -0x80_0000_0000_0000;
/// Largest packed 56-bit integer, `2^55 - 1`.
pub const I56_MAX: i64 = 0x7f_ffff_ffff_ffff;

/// A fixed-width, copy-by-value datum.
///
/// `Nil` and `Undefined` are distinct sentinels: explicit absence versus
/// never initialized. `Byte` is a compact constant-pool encoding for small
/// non-negative integers that participates in arithmetic alongside `Int`.
/// `Float` holds the raw IEEE-754 double bit pattern. `Reference` names a
/// heap slot; ownership lives in the slot, not in the value.
#[derive(Copy, Clone, Debug, PartialEq, Eq, Structural)]
pub enum Value {
    Byte(u8),
    Int(i64),
    Float(u64),
    Nil,
    Undefined,
    Reference(Handle),
}

impl Value {
    /// True of the integer shapes (`Byte` and `Int`).
    pub open spec fn is_int_spec(self) -> bool {
        self matches Value::Byte(_) || self matches Value::Int(_)
    }

    /// True of every numeric shape, floats included.
    pub open spec fn is_number_spec(self) -> bool {
        self.is_int_spec() || self matches Value::Float(_)
    }

    pub open spec fn is_nil_spec(self) -> bool {
        self matches Value::Nil
    }

    /// The mathematical integer carried by an integer shape.
    pub open spec fn int_val(self) -> int {
        match self {
            Value::Byte(b) => b as int,
            Value::Int(i) => i as int,
            _ => 0,
        }
    }

    /// Whether this value is an integer (a `Byte` counts as one).
    pub fn is_int(&self) -> (r: bool)
        ensures
            r == self.is_int_spec(),
    {
        matches!(self, Value::Byte(_) | Value::Int(_))
    }

    /// Whether this value is numeric (`Byte`, `Int` or `Float`).
    pub fn is_number(&self) -> (r: bool)
        ensures
            r == self.is_number_spec(),
    {
        matches!(self, Value::Byte(_) | Value::Int(_) | Value::Float(_))
    }

    /// Whether this value is the `Nil` sentinel.
    pub fn is_nil(&self) -> (r: bool)
        ensures
            r == self.is_nil_spec(),
    {
        matches!(self, Value::Nil)
    }

    /// The integer carried by this value; fails on non-integer shapes.
    pub fn get_int(&self) -> (r: VMResult<i64>)
        ensures
            match r {
                Ok(i) => self.is_int_spec() && i as int == self.int_val(),
                Err(e) => !self.is_int_spec() && e == VMError::NotAnInt,
            },
    {
        match self {
            Value::Byte(b) => Ok(*b as i64),
            Value::Int(i) => Ok(*i),
            _ => Err(VMError::NotAnInt),
        }
    }

    /// The IEEE-754 bit pattern carried by a `Float`; fails on every other
    /// shape. Integer shapes are not converted here: turning them into
    /// floats is the host's floating-point work.
    pub fn get_float_bits(&self) -> (r: VMResult<u64>)
        ensures
            match r {
                Ok(bits) => self == Value::Float(bits),
                Err(e) => !(self matches Value::Float(_)) && e == VMError::NotAFloat,
            },
    {
        match self {
            Value::Float(bits) => Ok(*bits),
            _ => Err(VMError::NotAFloat),
        }
    }

    /// A value holding the given 32-bit integer; always fits 56 bits.
    pub fn from_i32(value: i32) -> (v: Value)
        ensures
            v == Value::Int(value as i64),
    {
        Value::Int(value as i64)
    }

    /// A value holding the given unsigned 32-bit integer.
    pub fn from_u32(value: u32) -> (v: Value)
        ensures
            v == Value::Int(value as i64),
    {
        Value::Int(value as i64)
    }

    /// The carried integer as an `i32`. Only an `Int` converts; a value of
    /// another shape is a conversion mismatch, and an `Int` beyond the
    /// 32-bit range is out of range.
    pub fn to_i32(&self) -> (r: VMResult<i32>)
        ensures
            match r {
                Ok(i) => self matches Value::Int(n) && n == i as i64,
                Err(e) => match self {
                    Value::Int(n) => (n > i32::MAX as i64 || n < i32::MIN as i64)
                        && e == VMError::ConversionOutOfRange,
                    _ => e == VMError::ConversionMismatch,
                },
            },
    {
        match self {
            Value::Int(n) => {
                if *n >= i32::MIN as i64 && *n <= i32::MAX as i64 {
                    Ok(*n as i32)
                } else {
                    Err(VMError::ConversionOutOfRange)
                }
            },
            _ => Err(VMError::ConversionMismatch),
        }
    }
}

/// Wraparound to the packed 56-bit integer representation: the unique
/// integer congruent to `x` modulo `2^56` within `[-2^55, 2^55)`.
pub open spec fn i56_wrap(x: int) -> int {
    let m = x % 0x100_0000_0000_0000;
    if m >= 0x80_0000_0000_0000 {
        m - 0x100_0000_0000_0000
    } else {
        m
    }
}

/// Truncating division, the native signed division semantics: the quotient
/// of the magnitudes, negated when the signs differ.
pub open spec fn tdiv(a: int, b: int) -> int {
    let q = abs_int(a) / abs_int(b);
    if (a < 0) != (b < 0) {
        -q
    } else {
        q
    }
}

pub open spec fn abs_int(x: int) -> int {
    if x < 0 {
        -x
    } else {
        x
    }
}

/// An integer value wrapped into the packed 56-bit representation.
pub fn to_i56(i: i64) -> (v: Value)
    ensures
        v == Value::Int(i56_wrap(i as int) as i64),
        I56_MIN as int <= i56_wrap(i as int) <= I56_MAX as int,
{
    let u = to_u64_wrap(i);
    proof {
        lemma_mod_multiples_vanish(if i < 0 { 0x100 } else { 0 }, i as int, 0x100_0000_0000_0000);
    }
    Value::Int(wrap56(u))
}

/// Reinterpret an `i64` modulo `2^64` as a `u64`, without bit tricks so the
/// relation to the mathematical value stays visible.
fn to_u64_wrap(a: i64) -> (u: u64)
    ensures
        u as int == a as int + if a < 0 { 0x1_0000_0000_0000_0000int } else { 0int },
{
    if a >= 0 {
        a as u64
    } else {
        let t = (a + 0x4000_0000_0000_0000) + 0x4000_0000_0000_0000;
        (t as u64) + 0x8000_0000_0000_0000u64
    }
}

/// Sign-extend the low 56 bits of `u`, yielding `i56_wrap(u)`.
fn wrap56(u: u64) -> (r: i64)
    ensures
        r as int == i56_wrap(u as int),
        I56_MIN <= r <= I56_MAX,
{
    let m = u % 0x100_0000_0000_0000u64;
    if m >= 0x80_0000_0000_0000u64 {
        (m as i64) - 0x100_0000_0000_0000i64
    } else {
        m as i64
    }
}

/// 56-bit wrapping addition.
pub fn add56(a: i64, b: i64) -> (r: i64)
    ensures
        r as int == i56_wrap(a as int + b as int),
{
    let ua = to_u64_wrap(a);
    let ub = to_u64_wrap(b);
    let s = ua.wrapping_add(ub);
    proof {
        let ka = if a < 0 { 1int } else { 0int };
        let kb = if b < 0 { 1int } else { 0int };
        let ks = if ua + ub > u64::MAX { 1int } else { 0int };
        assert(s as int == a as int + b as int + (ka + kb - ks) * 0x1_0000_0000_0000_0000);
        lemma_mod_multiples_vanish(
            (ka + kb - ks) * 0x100,
            a as int + b as int,
            0x100_0000_0000_0000,
        );
        assert((ka + kb - ks) * 0x100 * 0x100_0000_0000_0000 == (ka + kb - ks)
            * 0x1_0000_0000_0000_0000) by (nonlinear_arith);
    }
    wrap56(s)
}

/// 56-bit wrapping subtraction.
pub fn sub56(a: i64, b: i64) -> (r: i64)
    ensures
        r as int == i56_wrap(a as int - b as int),
{
    let ua = to_u64_wrap(a);
    let ub = to_u64_wrap(b);
    let s = ua.wrapping_sub(ub);
    proof {
        let ka = if a < 0 { 1int } else { 0int };
        let kb = if b < 0 { 1int } else { 0int };
        let ks = if ua - ub < 0 { 1int } else { 0int };
        assert(s as int == a as int - b as int + (ka - kb + ks) * 0x1_0000_0000_0000_0000);
        lemma_mod_multiples_vanish(
            (ka - kb + ks) * 0x100,
            a as int - b as int,
            0x100_0000_0000_0000,
        );
        assert((ka - kb + ks) * 0x100 * 0x100_0000_0000_0000 == (ka - kb + ks)
            * 0x1_0000_0000_0000_0000) by (nonlinear_arith);
    }
    wrap56(s)
}

/// 56-bit wrapping multiplication.
pub fn mul56(a: i64, b: i64) -> (r: i64)
    ensures
        r as int == i56_wrap(a as int * b as int),
{
    let ua = to_u64_wrap(a);
    let ub = to_u64_wrap(b);
    let p = ua.wrapping_mul(ub);
    proof {
        lemma_mul56_mod(a as int, b as int, ua as int, ub as int, p as int);
    }
    wrap56(p)
}

proof fn lemma_mul56_mod(a: int, b: int, ua: int, ub: int, p: int)
    requires
        ua == a + if a < 0 { 0x1_0000_0000_0000_0000int } else { 0int },
        ub == b + if b < 0 { 0x1_0000_0000_0000_0000int } else { 0int },
        0 <= p,
        p == (ua * ub) % 0x1_0000_0000_0000_0000,
    ensures
        p % 0x100_0000_0000_0000 == (a * b) % 0x100_0000_0000_0000,
{
    let w = 0x1_0000_0000_0000_0000int;
    let m = 0x100_0000_0000_0000int;
    let ka = if a < 0 { 1int } else { 0int };
    let kb = if b < 0 { 1int } else { 0int };
    assert(ua * ub == a * b + (a * kb + b * ka + ka * kb * w) * w) by (nonlinear_arith)
        requires
            ua == a + ka * w,
            ub == b + kb * w,
    ;
    // p == (ua * ub) % 2^64, and 2^64 == 2^56 * 256, so p % 2^56 == (ua * ub) % 2^56.
    lemma_mod_mod(ua * ub, m, 0x100);
    // The multiple-of-2^64 part vanishes modulo 2^56.
    lemma_mod_multiples_vanish((a * kb + b * ka + ka * kb * w) * 0x100, a * b, m);
    assert((a * kb + b * ka + ka * kb * 0x1_0000_0000_0000_0000) * 0x100 * 0x100_0000_0000_0000
        == (a * kb + b * ka + ka * kb * 0x1_0000_0000_0000_0000) * 0x1_0000_0000_0000_0000)
        by (nonlinear_arith);
}

/// 56-bit wrapping division with truncation toward zero; the divisor must
/// be nonzero.
pub fn div56(a: i64, b: i64) -> (r: i64)
    requires
        b != 0,
    ensures
        r as int == i56_wrap(tdiv(a as int, b as int)),
{
    let ua = abs_u64(a);
    let ub = abs_u64(b);
    let q = ua / ub;
    if (a < 0) != (b < 0) {
        let nq = 0u64.wrapping_sub(q);
        proof {
            let ks = if 0 - q < 0 { 1int } else { 0int };
            assert(nq as int == tdiv(a as int, b as int) + ks * 0x1_0000_0000_0000_0000);
            lemma_mod_multiples_vanish(ks * 0x100, tdiv(a as int, b as int), 0x100_0000_0000_0000);
            assert(ks * 0x100 * 0x100_0000_0000_0000 == ks * 0x1_0000_0000_0000_0000)
                by (nonlinear_arith);
        }
        wrap56(nq)
    } else {
        wrap56(q)
    }
}

/// The magnitude of an `i64` as a `u64` (total, even at `i64::MIN`).
fn abs_u64(a: i64) -> (u: u64)
    ensures
        u as int == abs_int(a as int),
{
    if a >= 0 {
        a as u64
    } else if a == i64::MIN {
        0x8000_0000_0000_0000u64
    } else {
        (-a) as u64
    }
}

} // verus!
