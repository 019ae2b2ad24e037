//! Lossy quantization of embedding vectors.
//!
//! A component is a single-precision float given by its bit pattern. Its
//! magnitude is read off the pattern exactly, as an integer number of units
//! of 2^-149, so every step below is integer arithmetic and the same input
//! always gives the same output.
//!
//! Int8 and Int4 scale by the largest magnitude: with `levels` 127 or 7, a
//! component `v` becomes `round(levels * |v| / max|v|)` with the sign of `v`,
//! which is `round(v / scale)` for `scale = max|v| / levels`. The scale that
//! is stored is `max|v| / 127` (or `/ 7`) rounded to the nearest float.
//! Binary keeps one bit per component: 1 when the component is at least
//! zero, which includes `-0.0`.

use crate::vector::Vector;
use crate::wire::{le_encode, put_le};
use vstd::arithmetic::div_mod::lemma_div_multiples_vanish_quotient;
use vstd::arithmetic::power2::{
    lemma2_to64, lemma_pow2_adds, lemma_pow2_pos, lemma_pow2_strictly_increases,
    lemma_pow2_unfold, pow2,
};
use vstd::prelude::*;

verus! {

/// How a vector is reduced.
#[derive(Clone, Copy, Debug, PartialEq, Eq, Structural)]
pub enum QuantScheme {
    /// One signed byte per component, in -127..=127.
    Int8,
    /// Four bits per component, in -7..=7, two components per byte.
    Int4,
    /// One bit per component, eight components per byte.
    Binary,
}

/// Why a vector could not be quantized.
#[derive(Clone, Copy, Debug, PartialEq, Eq, Structural)]
pub enum QuantError {
    /// The vector has no components.
    EmptyVector,
    /// A component is NaN or infinite.
    NonFiniteValue,
}

/// The bit pattern of `1.0`.
pub const ONE_BITS: u32 = 0x3F80_0000;

/// The pattern with its sign bit cleared.
pub open spec fn magnitude_bits(b: u32) -> u32 {
    (b % 0x8000_0000) as u32
}

/// Whether the sign bit is set.
pub open spec fn sign_set(b: u32) -> bool {
    b >= 0x8000_0000
}

/// Neither NaN nor infinite: the exponent field is not all ones.
pub open spec fn is_finite(b: u32) -> bool {
    magnitude_bits(b) < 0x7F80_0000
}

/// Below zero; `-0.0` is not.
pub open spec fn is_negative(b: u32) -> bool {
    sign_set(b) && magnitude_bits(b) != 0
}

/// The exponent field.
pub open spec fn exponent(b: u32) -> nat {
    ((b / 0x80_0000) % 256) as nat
}

/// The significand as an integer, with the hidden bit of a normal number.
pub open spec fn mantissa(b: u32) -> nat {
    if exponent(b) == 0 {
        (b % 0x80_0000) as nat
    } else {
        (0x80_0000 + b % 0x80_0000) as nat
    }
}

/// The power of two by which the significand is multiplied.
pub open spec fn shift(b: u32) -> nat {
    if exponent(b) == 0 {
        0
    } else {
        (exponent(b) - 1) as nat
    }
}

/// The absolute value of a finite float, in units of 2^-149.
pub open spec fn magnitude(b: u32) -> nat {
    mantissa(b) * pow2(shift(b))
}

/// The largest sign-cleared pattern among the components, which is the
/// pattern of the largest absolute value when all are finite.
pub open spec fn max_magnitude_bits(v: Seq<u32>) -> u32
    decreases v.len(),
{
    if v.len() == 0 {
        0
    } else {
        let m = max_magnitude_bits(v.drop_last());
        let x = magnitude_bits(v.last());
        if x > m {
            x
        } else {
            m
        }
    }
}

/// The integer nearest to `n / d`, halves upwards.
pub open spec fn round_div(n: nat, d: nat) -> nat {
    ((2 * n + d) / (2 * d)) as nat
}

/// The quantized level of a component: `levels * |v| / max|v|` rounded to
/// the nearest integer, held to `levels`, with the sign of `v`; zero when
/// every component is zero.
pub open spec fn level(b: u32, max_bits: u32, levels: nat) -> int {
    if max_bits == 0 {
        0
    } else {
        let q = round_div(levels * magnitude(b), magnitude(max_bits));
        let c = if q > levels {
            levels
        } else {
            q
        };
        if sign_set(b) {
            -c
        } else {
            c as int
        }
    }
}

/// The pattern of the float nearest to `max|v| / levels`, where `levels` is
/// 127 or 7; the pattern of `1.0` when every component is zero. For a
/// result in the two lowest binades the pattern is the rounded quotient
/// itself; above them the quotient is taken at the one scaling, of
/// `pow2(bits)` and half of it, that leaves a 24-bit significand.
pub open spec fn scale_bits(max_bits: u32, levels: nat, bits: nat) -> u32 {
    if max_bits == 0 {
        ONE_BITS
    } else {
        let m = mantissa(max_bits);
        let s = shift(max_bits);
        if s < bits {
            round_div(m * pow2(s), levels) as u32
        } else {
            let q = round_div(m * pow2(bits), levels);
            if q < 0x100_0000 {
                ((s - bits) * 0x80_0000 + q) as u32
            } else {
                ((s - bits + 1) * 0x80_0000 + round_div(m * pow2((bits - 1) as nat), levels)) as u32
            }
        }
    }
}

/// A level in -128..=127 as a byte in two's complement.
pub open spec fn byte_of_level(c: int) -> u8 {
    if c >= 0 {
        c as u8
    } else {
        (256 + c) as u8
    }
}

/// A level in -8..=7 as four bits in two's complement.
pub open spec fn nibble_of_level(c: int) -> nat {
    if c >= 0 {
        c as nat
    } else {
        (16 + c) as nat
    }
}

/// One byte per component.
pub open spec fn int8_codes(v: Seq<u32>) -> Seq<u8> {
    Seq::new(v.len(), |i: int| byte_of_level(level(v[i], max_magnitude_bits(v), 127)))
}

/// The level of component `i` as four bits; zero past the end.
pub open spec fn nibble_at(v: Seq<u32>, i: int) -> nat {
    if 0 <= i < v.len() {
        nibble_of_level(level(v[i], max_magnitude_bits(v), 7))
    } else {
        0
    }
}

/// Two components per byte, the earlier one in the high four bits; an odd
/// last component is followed by four zero bits.
pub open spec fn int4_codes(v: Seq<u32>) -> Seq<u8> {
    Seq::new(((v.len() + 1) / 2) as nat, |j: int| (16 * nibble_at(v, 2 * j) + nibble_at(v, 2 * j + 1)) as u8)
}

/// The bit of component `i`: 1 when it is at least zero; 0 past the end.
pub open spec fn sign_bit(v: Seq<u32>, i: int) -> nat {
    if 0 <= i < v.len() && !is_negative(v[i]) {
        1
    } else {
        0
    }
}

/// Eight components in one byte, the earliest in the lowest bit.
pub open spec fn packed_byte(v: Seq<u32>, j: int) -> nat {
    sign_bit(v, 8 * j) + 2 * sign_bit(v, 8 * j + 1) + 4 * sign_bit(v, 8 * j + 2) + 8 * sign_bit(
        v,
        8 * j + 3,
    ) + 16 * sign_bit(v, 8 * j + 4) + 32 * sign_bit(v, 8 * j + 5) + 64 * sign_bit(v, 8 * j + 6)
        + 128 * sign_bit(v, 8 * j + 7)
}

/// Eight components per byte; the last byte is filled up with zero bits.
pub open spec fn binary_codes(v: Seq<u32>) -> Seq<u8> {
    Seq::new(((v.len() + 7) / 8) as nat, |j: int| packed_byte(v, j) as u8)
}

/// The mathematical content of a [`QuantizedVector`].
pub struct QuantizedModel {
    pub scheme: QuantScheme,
    pub dimension: nat,
    /// The pattern of the scale factor; none for `Binary`.
    pub scale: Option<u32>,
    pub codes: Seq<u8>,
}

/// What quantizing `v` under `scheme` gives.
pub open spec fn quantized_model(v: Seq<u32>, scheme: QuantScheme) -> QuantizedModel {
    match scheme {
        QuantScheme::Int8 => QuantizedModel {
            scheme,
            dimension: v.len(),
            scale: Some(scale_bits(max_magnitude_bits(v), 127, 7)),
            codes: int8_codes(v),
        },
        QuantScheme::Int4 => QuantizedModel {
            scheme,
            dimension: v.len(),
            scale: Some(scale_bits(max_magnitude_bits(v), 7, 3)),
            codes: int4_codes(v),
        },
        QuantScheme::Binary => QuantizedModel {
            scheme,
            dimension: v.len(),
            scale: None,
            codes: binary_codes(v),
        },
    }
}

/// The scale in four bytes, little-endian, where there is one, then the
/// packed components.
pub open spec fn payload_bytes(q: QuantizedModel) -> Seq<u8> {
    match q.scale {
        Some(s) => le_encode(s as nat, 4) + q.codes,
        None => q.codes,
    }
}

/// A vector in reduced precision, with what is needed to scale it back.
#[derive(Clone, Debug)]
pub struct QuantizedVector {
    scheme: QuantScheme,
    dimension: usize,
    scale: Option<u32>,
    codes: Vec<u8>,
}

impl View for QuantizedVector {
    type V = QuantizedModel;

    closed spec fn view(&self) -> QuantizedModel {
        QuantizedModel {
            scheme: self.scheme,
            dimension: self.dimension as nat,
            scale: self.scale,
            codes: self.codes@,
        }
    }
}

impl QuantizedVector {
    /// The scheme under which the vector was reduced.
    pub fn scheme(&self) -> (s: QuantScheme)
        ensures
            s == self@.scheme,
    {
        self.scheme
    }

    /// The number of components of the vector that was quantized.
    pub fn dimension(&self) -> (n: usize)
        ensures
            n == self@.dimension,
    {
        self.dimension
    }

    /// The bit pattern of the scale factor; none for `Binary`.
    pub fn scale(&self) -> (s: Option<u32>)
        ensures
            s == self@.scale,
    {
        self.scale
    }

    /// The packed components, without the scale.
    pub fn codes(&self) -> (c: Vec<u8>)
        ensures
            c@ == self@.codes,
    {
        let mut out: Vec<u8> = Vec::new();
        crate::binary::append_bytes(&mut out, self.codes.as_slice());
        out
    }

    /// The scale, where there is one, followed by the packed components.
    pub fn payload(&self) -> (bytes: Vec<u8>)
        ensures
            bytes@ == payload_bytes(self@),
    {
        let mut out: Vec<u8> = Vec::new();
        match self.scale {
            Some(s) => {
                put_le(&mut out, s as u64, 4);
            },
            None => {},
        }
        crate::binary::append_bytes(&mut out, self.codes.as_slice());
        out
    }
}

/// Rounding a quotient is not changed by a common factor of its terms.
pub proof fn lemma_round_div_scaled(a: nat, d: nat, c: nat)
    requires
        d > 0,
        c > 0,
    ensures
        round_div(a * c, d * c) == round_div(a, d),
{
    assert(2 * (a * c) + d * c == c * (2 * a + d)) by (nonlinear_arith);
    assert(2 * (d * c) == c * (2 * d)) by (nonlinear_arith);
    lemma_div_multiples_vanish_quotient(c as int, (2 * a + d) as int, (2 * d) as int);
}

/// Every component's sign-cleared pattern is at most the largest.
pub proof fn lemma_max_magnitude_bits(v: Seq<u32>)
    ensures
        forall|i: int| 0 <= i < v.len() ==> magnitude_bits(#[trigger] v[i]) <= max_magnitude_bits(v),
        (forall|i: int| 0 <= i < v.len() ==> is_finite(#[trigger] v[i])) ==> max_magnitude_bits(v)
            < 0x7F80_0000,
        (forall|i: int| 0 <= i < v.len() ==> magnitude_bits(#[trigger] v[i]) == 0)
            ==> max_magnitude_bits(v) == 0,
    decreases v.len(),
{
    if v.len() > 0 {
        let front = v.drop_last();
        lemma_max_magnitude_bits(front);
        assert forall|i: int| 0 <= i < v.len() implies magnitude_bits(#[trigger] v[i])
            <= max_magnitude_bits(v) by {
            if i < v.len() - 1 {
                assert(front[i] == v[i]);
            }
        }
        if forall|i: int| 0 <= i < v.len() ==> is_finite(#[trigger] v[i]) {
            assert forall|i: int| 0 <= i < front.len() implies is_finite(#[trigger] front[i]) by {
                assert(front[i] == v[i]);
            }
            assert(is_finite(v[v.len() - 1]));
        }
        if forall|i: int| 0 <= i < v.len() ==> magnitude_bits(#[trigger] v[i]) == 0 {
            assert forall|i: int| 0 <= i < front.len() implies magnitude_bits(#[trigger] front[i])
                == 0 by {
                assert(front[i] == v[i]);
            }
            assert(magnitude_bits(v[v.len() - 1]) == 0);
        }
    }
}

fn split(b: u32) -> (r: (u64, u32))
    ensures
        r.0 == mantissa(b),
        r.1 == shift(b),
        r.0 < 0x100_0000,
        r.1 <= 254,
        r.1 >= 1 ==> r.0 >= 0x80_0000,
        r.1 + 1 >= exponent(b),
        magnitude_bits(b) > 0 ==> r.0 > 0,
        mantissa(magnitude_bits(b)) == mantissa(b),
        shift(magnitude_bits(b)) == shift(b),
{
    let e = (b / 0x80_0000) % 256;
    let f = b % 0x80_0000;
    if e == 0 {
        (f as u64, 0)
    } else {
        ((0x80_0000 + f) as u64, e - 1)
    }
}

fn pow2_small(d: u32) -> (p: u64)
    requires
        d <= 32,
    ensures
        p == pow2(d as nat),
        p <= 0x1_0000_0000,
{
    let mut p: u64 = 1;
    let mut k: u32 = 0;
    proof {
        lemma2_to64();
    }
    while k < d
        invariant
            k <= d <= 32,
            p == pow2(k as nat),
            p <= pow2(32),
            pow2(32) == 0x1_0000_0000,
        decreases d - k,
    {
        proof {
            lemma_pow2_unfold((k + 1) as nat);
            if k + 1 < 32 {
                lemma_pow2_strictly_increases((k + 1) as nat, 32);
            }
        }
        p = p * 2;
        k = k + 1;
    }
    p
}

fn round_div_exec(n: u64, d: u64) -> (q: u64)
    requires
        0 < d <= 0x1_0000_0000_0000,
        n <= 0x1_0000_0000_0000,
    ensures
        q == round_div(n as nat, d as nat),
        (d == 127 || d == 7) ==> q <= n,
{
    let twice = 2 * d;
    let q = (2 * n + d) / twice;
    proof {
        if d == 127 {
            assert(q == (2 * n + 127) / 254);
        }
        if d == 7 {
            assert(q == (2 * n + 7) / 14);
        }
    }
    q
}

/// The level of one component.
fn level_of(b: u32, max_bits: u32, levels: u64) -> (c: i8)
    requires
        levels <= 127,
        max_bits < 0x7F80_0000,
        magnitude_bits(b) <= max_bits,
    ensures
        c == level(b, max_bits, levels as nat),
        -levels <= c <= levels,
{
    if max_bits == 0 {
        return 0;
    }
    let (m, s) = split(b);
    let (mm, sm) = split(max_bits);
    proof {
        assert(exponent(b) <= exponent(max_bits));
    }
    let d = sm - s;
    let ghost unit = pow2(s as nat);
    let ghost den = mm as nat * pow2(d as nat);
    proof {
        lemma_pow2_pos(s as nat);
        lemma_pow2_pos(d as nat);
        lemma_pow2_adds(d as nat, s as nat);
        assert(magnitude(max_bits) == den * unit) by (nonlinear_arith)
            requires
                magnitude(max_bits) == mm as nat * pow2(sm as nat),
                pow2(sm as nat) == pow2(d as nat) * unit,
                den == mm as nat * pow2(d as nat),
        ;
        assert(levels as nat * magnitude(b) == (levels as nat * m as nat) * unit)
            by (nonlinear_arith)
            requires
                magnitude(b) == m as nat * unit,
        ;
        assert(den > 0) by (nonlinear_arith)
            requires
                den == mm as nat * pow2(d as nat),
                mm > 0,
                pow2(d as nat) > 0,
        ;
        lemma_round_div_scaled(levels as nat * m as nat, den, unit);
    }
    let q: u64 = if d >= 9 {
        proof {
            lemma2_to64();
            if d > 9 {
                lemma_pow2_strictly_increases(9, d as nat);
            }
            assert(den >= 0x80_0000 * 0x200) by (nonlinear_arith)
                requires
                    den == mm as nat * pow2(d as nat),
                    mm >= 0x80_0000,
                    pow2(d as nat) >= 0x200,
            ;
            let a = levels as nat * m as nat;
            assert(a <= 127 * 0x100_0000) by (nonlinear_arith)
                requires
                    a == levels as nat * m as nat,
                    levels <= 127,
                    m < 0x100_0000,
            ;
            assert((2 * a + den) / (2 * den) == 0) by (nonlinear_arith)
                requires
                    2 * a < den,
            ;
        }
        0
    } else {
        let p = pow2_small(d);
        proof {
            lemma2_to64();
            if d < 8 {
                lemma_pow2_strictly_increases(d as nat, 8);
            }
            assert(mm * p <= 0x100_0000 * 0x100) by (nonlinear_arith)
                requires
                    mm < 0x100_0000,
                    p <= 0x100,
            ;
            assert(mm * p > 0) by (nonlinear_arith)
                requires
                    mm > 0,
                    p > 0,
            ;
            assert(levels * m <= 127 * 0x100_0000) by (nonlinear_arith)
                requires
                    levels <= 127,
                    m < 0x100_0000,
            ;
        }
        round_div_exec(levels * m, mm * p)
    };
    let held: u64 = if q > levels {
        levels
    } else {
        q
    };
    if b >= 0x8000_0000 {
        -(held as i8)
    } else {
        held as i8
    }
}

/// The pattern of the scale for a largest magnitude.
fn scale_of(max_bits: u32, levels: u64, bits: u32) -> (s: u32)
    requires
        max_bits < 0x7F80_0000,
        (levels == 127 && bits == 7) || (levels == 7 && bits == 3),
    ensures
        s == scale_bits(max_bits, levels as nat, bits as nat),
{
    if max_bits == 0 {
        return ONE_BITS;
    }
    let (m, s) = split(max_bits);
    proof {
        lemma2_to64();
    }
    if s < bits {
        let p = pow2_small(s);
        proof {
            if s < 7 {
                lemma_pow2_strictly_increases(s as nat, 7);
            }
            assert(m * p <= 0x100_0000 * 0x80) by (nonlinear_arith)
                requires
                    m < 0x100_0000,
                    p <= 0x80,
            ;
        }
        let q = round_div_exec(m * p, levels);
        q as u32
    } else {
        let p = pow2_small(bits);
        proof {
            assert(m * p <= 0x100_0000 * 0x80) by (nonlinear_arith)
                requires
                    m < 0x100_0000,
                    p <= 0x80,
            ;
        }
        let q = round_div_exec(m * p, levels);
        if q < 0x100_0000 {
            ((s - bits) as u64 * 0x80_0000 + q) as u32
        } else {
            let half = pow2_small(bits - 1);
            proof {
                assert(m * half <= 0x100_0000 * 0x40) by (nonlinear_arith)
                    requires
                        m < 0x100_0000,
                        half <= 0x40,
                ;
            }
            let q2 = round_div_exec(m * half, levels);
            ((s - bits + 1) as u64 * 0x80_0000 + q2) as u32
        }
    }
}

/// Whether every component is finite.
pub open spec fn all_finite(v: Seq<u32>) -> bool {
    forall|i: int| 0 <= i < v.len() ==> is_finite(#[trigger] v[i])
}

fn int8_byte(c: i8) -> (b: u8)
    ensures
        b == byte_of_level(c as int),
{
    if c >= 0 {
        c as u8
    } else {
        (256 + c as i16) as u8
    }
}

fn nibble(c: i8) -> (n: u8)
    requires
        -8 <= c <= 7,
    ensures
        n == nibble_of_level(c as int),
        n < 16,
{
    if c >= 0 {
        c as u8
    } else {
        (16 + c) as u8
    }
}

fn sign_bit_of(v: &Vector, base: usize, k: usize) -> (bit: u8)
    requires
        base < v@.len(),
        k < 8,
    ensures
        bit == sign_bit(v@, base + k),
        bit <= 1,
{
    let n = v.len();
    if k < n - base {
        let b = v.get(base + k);
        if b >= 0x8000_0000 && b % 0x8000_0000 != 0 {
            0
        } else {
            1
        }
    } else {
        0
    }
}

fn nibble_of(v: &Vector, i: usize, max_bits: u32) -> (n: u8)
    requires
        i <= v@.len(),
        all_finite(v@),
        max_bits == max_magnitude_bits(v@),
    ensures
        n == nibble_at(v@, i as int),
        n < 16,
{
    proof {
        lemma_max_magnitude_bits(v@);
    }
    if i < v.len() {
        nibble(level_of(v.get(i), max_bits, 7))
    } else {
        0
    }
}

/// Reduces a vector under `scheme`. Nothing is produced for a vector
/// without components, nor for one that holds a NaN or an infinity.
pub fn quantize_embedding(vector: &Vector, scheme: QuantScheme) -> (res: Result<
    QuantizedVector,
    QuantError,
>)
    ensures
        vector@.len() == 0 ==> res == Err::<QuantizedVector, QuantError>(QuantError::EmptyVector),
        vector@.len() > 0 && !all_finite(vector@) ==> res == Err::<QuantizedVector, QuantError>(
            QuantError::NonFiniteValue,
        ),
        vector@.len() > 0 && all_finite(vector@) ==> res is Ok && res.unwrap()@ == quantized_model(
            vector@,
            scheme,
        ),
{
    let n = vector.len();
    if n == 0 {
        return Err(QuantError::EmptyVector);
    }
    let mut max_bits: u32 = 0;
    let mut i: usize = 0;
    while i < n
        invariant
            i <= n,
            n == vector@.len(),
            forall|j: int| 0 <= j < i ==> is_finite(#[trigger] vector@[j]),
            max_bits == max_magnitude_bits(vector@.subrange(0, i as int)),
        decreases n - i,
    {
        let b = vector.get(i);
        let cleared = b % 0x8000_0000;
        if cleared >= 0x7F80_0000 {
            return Err(QuantError::NonFiniteValue);
        }
        proof {
            let next = vector@.subrange(0, i + 1);
            assert(next.drop_last() =~= vector@.subrange(0, i as int));
            assert(next.last() == b);
        }
        if cleared > max_bits {
            max_bits = cleared;
        }
        i = i + 1;
    }
    proof {
        assert(vector@.subrange(0, n as int) =~= vector@);
        lemma_max_magnitude_bits(vector@);
    }
    match scheme {
        QuantScheme::Int8 => {
            let mut codes: Vec<u8> = Vec::new();
            let mut k: usize = 0;
            while k < n
                invariant
                    k <= n,
                    n == vector@.len(),
                    all_finite(vector@),
                    max_bits == max_magnitude_bits(vector@),
                    max_bits < 0x7F80_0000,
                    forall|j: int|
                        0 <= j < n ==> magnitude_bits(#[trigger] vector@[j]) <= max_bits,
                    codes@ == int8_codes(vector@).subrange(0, k as int),
                decreases n - k,
            {
                let c = level_of(vector.get(k), max_bits, 127);
                codes.push(int8_byte(c));
                proof {
                    assert(codes@ =~= int8_codes(vector@).subrange(0, k + 1));
                }
                k = k + 1;
            }
            proof {
                assert(codes@ =~= int8_codes(vector@));
            }
            Ok(
                QuantizedVector {
                    scheme,
                    dimension: n,
                    scale: Some(scale_of(max_bits, 127, 7)),
                    codes,
                },
            )
        },
        QuantScheme::Int4 => {
            let count = n / 2 + n % 2;
            let mut codes: Vec<u8> = Vec::new();
            let mut j: usize = 0;
            while j < count
                invariant
                    j <= count,
                    count == (n + 1) / 2,
                    n == vector@.len(),
                    all_finite(vector@),
                    max_bits == max_magnitude_bits(vector@),
                    codes@ == int4_codes(vector@).subrange(0, j as int),
                decreases count - j,
            {
                let hi = nibble_of(vector, 2 * j, max_bits);
                let lo = nibble_of(vector, 2 * j + 1, max_bits);
                codes.push(16 * hi + lo);
                proof {
                    assert(codes@ =~= int4_codes(vector@).subrange(0, j + 1));
                }
                j = j + 1;
            }
            proof {
                assert(codes@ =~= int4_codes(vector@));
            }
            Ok(
                QuantizedVector {
                    scheme,
                    dimension: n,
                    scale: Some(scale_of(max_bits, 7, 3)),
                    codes,
                },
            )
        },
        QuantScheme::Binary => {
            let count = n / 8 + if n % 8 == 0 {
                0
            } else {
                1
            };
            let mut codes: Vec<u8> = Vec::new();
            let mut j: usize = 0;
            while j < count
                invariant
                    j <= count,
                    count == (n + 7) / 8,
                    n == vector@.len(),
                    codes@ == binary_codes(vector@).subrange(0, j as int),
                decreases count - j,
            {
                let base = 8 * j;
                let byte = sign_bit_of(vector, base, 0) + 2 * sign_bit_of(vector, base, 1) + 4
                    * sign_bit_of(vector, base, 2) + 8 * sign_bit_of(vector, base, 3) + 16
                    * sign_bit_of(vector, base, 4) + 32 * sign_bit_of(vector, base, 5) + 64
                    * sign_bit_of(vector, base, 6) + 128 * sign_bit_of(vector, base, 7);
                codes.push(byte);
                proof {
                    assert(codes@ =~= binary_codes(vector@).subrange(0, j + 1));
                }
                j = j + 1;
            }
            proof {
                assert(codes@ =~= binary_codes(vector@));
            }
            Ok(QuantizedVector { scheme, dimension: n, scale: None, codes })
        },
    }
}

/// The level that a byte of an Int8 payload stands for.
pub open spec fn level_of_byte(b: u8) -> int {
    if b < 128 {
        b as int
    } else {
        b - 256
    }
}

/// Bit `k` of a number, bit 0 being the lowest.
pub open spec fn bit_of(b: nat, k: nat) -> nat
    decreases k,
{
    if k == 0 {
        b % 2
    } else {
        bit_of(b / 2, (k - 1) as nat)
    }
}

/// A level never leaves the range of its scheme.
pub proof fn lemma_level_in_range(b: u32, max_bits: u32, levels: nat)
    ensures
        -levels <= level(b, max_bits, levels) <= levels,
{
}

/// Every byte of an Int8 result stands for a level in -127..=127, the level
/// of its component.
pub proof fn lemma_int8_bytes_in_range(v: Seq<u32>, i: int)
    requires
        0 <= i < v.len(),
    ensures
        int8_codes(v).len() == v.len(),
        level_of_byte(int8_codes(v)[i]) == level(v[i], max_magnitude_bits(v), 127),
        -127 <= level_of_byte(int8_codes(v)[i]) <= 127,
{
}

/// A vector whose components are all zero, of either sign, becomes zero
/// bytes under Int8, with the scale `1.0`.
pub proof fn lemma_int8_all_zero(v: Seq<u32>)
    requires
        forall|i: int| 0 <= i < v.len() ==> magnitude_bits(#[trigger] v[i]) == 0,
    ensures
        quantized_model(v, QuantScheme::Int8).scale == Some(ONE_BITS),
        forall|i: int| 0 <= i < v.len() ==> (#[trigger] int8_codes(v)[i]) == 0,
{
    lemma_max_magnitude_bits(v);
}

proof fn lemma_bits_of_sum(b0: nat, b1: nat, b2: nat, b3: nat, b4: nat, b5: nat, b6: nat, b7: nat)
    requires
        b0 <= 1,
        b1 <= 1,
        b2 <= 1,
        b3 <= 1,
        b4 <= 1,
        b5 <= 1,
        b6 <= 1,
        b7 <= 1,
    ensures
        ({
            let byte = b0 + 2 * b1 + 4 * b2 + 8 * b3 + 16 * b4 + 32 * b5 + 64 * b6 + 128 * b7;
            &&& byte < 256
            &&& bit_of(byte, 0) == b0
            &&& bit_of(byte, 1) == b1
            &&& bit_of(byte, 2) == b2
            &&& bit_of(byte, 3) == b3
            &&& bit_of(byte, 4) == b4
            &&& bit_of(byte, 5) == b5
            &&& bit_of(byte, 6) == b6
            &&& bit_of(byte, 7) == b7
        }),
{
    let r7 = b7;
    let r6 = b6 + 2 * r7;
    let r5 = b5 + 2 * r6;
    let r4 = b4 + 2 * r5;
    let r3 = b3 + 2 * r4;
    let r2 = b2 + 2 * r3;
    let r1 = b1 + 2 * r2;
    let r0 = b0 + 2 * r1;
    assert(r0 % 2 == b0 && r0 / 2 == r1);
    assert(r1 % 2 == b1 && r1 / 2 == r2);
    assert(r2 % 2 == b2 && r2 / 2 == r3);
    assert(r3 % 2 == b3 && r3 / 2 == r4);
    assert(r4 % 2 == b4 && r4 / 2 == r5);
    assert(r5 % 2 == b5 && r5 / 2 == r6);
    assert(r6 % 2 == b6 && r6 / 2 == r7);
    assert(r7 % 2 == b7);
    reveal_with_fuel(bit_of, 9);
}

/// A Binary result has one byte for every eight components, rounded up; bit
/// `i` of it is the bit of component `i`, and every bit past the last
/// component is zero.
pub proof fn lemma_binary_bits(v: Seq<u32>, i: int)
    requires
        0 <= i < 8 * ((v.len() + 7) / 8),
    ensures
        binary_codes(v).len() == (v.len() + 7) / 8,
        bit_of(binary_codes(v)[i / 8] as nat, (i % 8) as nat) == sign_bit(v, i),
        i >= v.len() ==> bit_of(binary_codes(v)[i / 8] as nat, (i % 8) as nat) == 0,
{
    let j = i / 8;
    let k = i % 8;
    assert(i == 8 * j + k);
    assert(binary_codes(v)[j] == packed_byte(v, j) as u8);
    lemma_bits_of_sum(
        sign_bit(v, 8 * j),
        sign_bit(v, 8 * j + 1),
        sign_bit(v, 8 * j + 2),
        sign_bit(v, 8 * j + 3),
        sign_bit(v, 8 * j + 4),
        sign_bit(v, 8 * j + 5),
        sign_bit(v, 8 * j + 6),
        sign_bit(v, 8 * j + 7),
    );
}

proof fn lemma_round_div_error(n: nat, levels: nat)
    requires
        levels == 127 || levels == 7,
    ensures
        -levels < 2 * (levels * round_div(n, levels) - n) < levels,
        round_div(n, levels) <= n,
{
    if levels == 127 {
        assert(round_div(n, levels) == (2 * n + 127) / 254);
    } else {
        assert(round_div(n, levels) == (2 * n + 7) / 14);
    }
}

/// A pattern below 2^24 stands for itself, in units of 2^-149.
proof fn lemma_magnitude_low(y: u32)
    requires
        y < 0x100_0000,
    ensures
        magnitude(y) == y,
        shift(y) == 0,
{
    lemma2_to64();
    assert(y as nat * 1 == y as nat) by (nonlinear_arith);
}

/// The pattern `t * 2^23 + q`, with a 24-bit significand `q`, stands for
/// `q * 2^t`.
proof fn lemma_magnitude_normal(t: nat, q: nat)
    requires
        t <= 253,
        0x80_0000 <= q < 0x100_0000,
    ensures
        t * 0x80_0000 + q < 0x7F80_0000,
        magnitude((t * 0x80_0000 + q) as u32) == q * pow2(t),
        shift((t * 0x80_0000 + q) as u32) == t,
{
    let y = (t * 0x80_0000 + q) as u32;
    assert(y / 0x80_0000 == t + 1);
    assert(y % 0x80_0000 == q - 0x80_0000);
}

/// The stored scale is the float nearest to the largest magnitude divided
/// by the number of levels: it is finite and positive, and it lies within
/// half a unit in its last place of the exact quotient. No quotient falls
/// halfway between two floats, since the divisor is odd.
pub proof fn lemma_scale_is_nearest(max_bits: u32, levels: nat, bits: nat)
    requires
        0 < max_bits < 0x7F80_0000,
        (levels == 127 && bits == 7) || (levels == 7 && bits == 3),
    ensures
        ({
            let y = scale_bits(max_bits, levels, bits);
            let error = levels * magnitude(y) - magnitude(max_bits);
            &&& y < 0x7F80_0000
            &&& -(levels * pow2(shift(y))) < 2 * error < levels * pow2(shift(y))
        }),
{
    let m = mantissa(max_bits);
    let s = shift(max_bits);
    let y = scale_bits(max_bits, levels, bits);
    lemma2_to64();
    assert(m < 0x100_0000);
    assert(s <= 253);
    assert(s >= 1 ==> m >= 0x80_0000);
    if s < bits {
        let n = m * pow2(s);
        let q = round_div(n, levels);
        if s < 6 {
            lemma_pow2_strictly_increases(s, 6);
        }
        assert(n <= 0x100_0000 * 0x40) by (nonlinear_arith)
            requires
                n == m * pow2(s),
                m < 0x100_0000,
                pow2(s) <= 0x40,
        ;
        lemma_round_div_error(n, levels);
        assert(levels == 7 ==> pow2(s) <= 4) by {
            if levels == 7 && s < 2 {
                lemma_pow2_strictly_increases(s, 2);
            }
        }
        assert(levels == 7 ==> n <= 0x100_0000 * 4) by (nonlinear_arith)
            requires
                n == m * pow2(s),
                m < 0x100_0000,
                levels == 7 ==> pow2(s) <= 4,
        ;
        assert(q < 0x100_0000);
        lemma_magnitude_low(q as u32);
        assert(levels * pow2(0) == levels) by (nonlinear_arith)
            requires
                pow2(0) == 1,
        ;
    } else {
        let t = (s - bits) as nat;
        lemma_pow2_adds(bits, t);
        lemma_pow2_pos(t);
        let n = m * pow2(bits);
        let q = round_div(n, levels);
        assert(n == if levels == 127 {
            m * 128
        } else {
            m * 8
        });
        lemma_round_div_error(n, levels);
        if q < 0x100_0000 {
            assert(q >= 0x80_0000);
            lemma_magnitude_normal(t, q);
            assert(levels * (q * pow2(t)) - m * pow2(s) == (levels * q - n) * pow2(t))
                by (nonlinear_arith)
                requires
                    n == m * pow2(bits),
                    pow2(s) == pow2(bits) * pow2(t),
            ;
            assert(-(levels * pow2(t)) < 2 * ((levels * q - n) * pow2(t)) < levels * pow2(t))
                by (nonlinear_arith)
                requires
                    -levels < 2 * (levels * q - n) < levels,
                    pow2(t) > 0,
            ;
        } else {
            let half = (bits - 1) as nat;
            lemma_pow2_adds(half, t + 1);
            lemma_pow2_unfold(t + 1);
            lemma_pow2_pos(t + 1);
            let n2 = m * pow2(half);
            let q2 = round_div(n2, levels);
            assert(n2 == if levels == 127 {
                m * 64
            } else {
                m * 4
            });
            lemma_round_div_error(n2, levels);
            assert(0x80_0000 <= q2 < 0x100_0000);
            lemma_magnitude_normal(t + 1, q2);
            assert(pow2(s) == pow2(half) * pow2(t + 1)) by (nonlinear_arith)
                requires
                    pow2(s) == pow2(bits) * pow2(t),
                    pow2(bits) == 2 * pow2(half),
                    pow2(t + 1) == 2 * pow2(t),
            ;
            assert(levels * (q2 * pow2(t + 1)) - m * pow2(s) == (levels * q2 - n2) * pow2(t + 1))
                by (nonlinear_arith)
                requires
                    n2 == m * pow2(half),
                    pow2(s) == pow2(half) * pow2(t + 1),
            ;
            assert(-(levels * pow2(t + 1)) < 2 * ((levels * q2 - n2) * pow2(t + 1)) < levels
                * pow2(t + 1)) by (nonlinear_arith)
                requires
                    -levels < 2 * (levels * q2 - n2) < levels,
                    pow2(t + 1) > 0,
            ;
        }
    }
}

} // verus!
