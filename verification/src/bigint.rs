//! Arbitrary-precision signed integers, held as a sign flag and a
//! little-endian sequence of base-2^32 digits. The representation is kept
//! canonical (no leading zero digit, and zero is never negative), so the
//! sign flag and the digit count alone settle the sign and smallness tests.
//! Arithmetic is delegated to the `num` crate through trusted wrappers whose
//! contracts speak of the mathematical value `as_int`.

use vstd::prelude::*;

use num::bigint::BigInt;
use num::bigint::Sign;
use num::Integer;

verus! {

/// A signed arbitrary-precision integer: magnitude digits, least significant
/// first, in base 2^32; `neg` marks a strictly negative number.
pub struct Bint {
    pub neg: bool,
    pub mag: Vec<u32>,
}

/// Three-way comparison result.
#[derive(Clone, Copy, PartialEq, Eq, Structural)]
pub enum Ord3 {
    Lt,
    Eq,
    Gt,
}

/// Value of a little-endian digit sequence in base 2^32.
pub open spec fn mag_val(m: Seq<u32>) -> int
    decreases m.len(),
{
    if m.len() == 0 {
        0
    } else {
        m[0] + 0x1_0000_0000 * mag_val(m.drop_first())
    }
}

pub proof fn lemma_mag_val_nonneg(m: Seq<u32>)
    ensures
        mag_val(m) >= 0,
    decreases m.len(),
{
    if m.len() > 0 {
        lemma_mag_val_nonneg(m.drop_first());
    }
}

pub proof fn lemma_mag_val_pos(m: Seq<u32>)
    requires
        m.len() > 0,
        m.last() != 0,
    ensures
        mag_val(m) >= 1,
    decreases m.len(),
{
    if m.len() == 1 {
        assert(mag_val(m.drop_first()) == 0);
        assert(m.last() == m[0]);
    } else {
        let r = m.drop_first();
        assert(r.last() == m.last());
        lemma_mag_val_pos(r);
        lemma_mag_val_nonneg(r);
    }
}

pub proof fn lemma_mag_val_small(lo: u32, hi: u32)
    ensures
        mag_val(seq![lo]) == lo,
        mag_val(seq![lo, hi]) == lo + 0x1_0000_0000 * hi,
{
    assert(seq![lo].drop_first() =~= Seq::<u32>::empty());
    assert(mag_val(Seq::<u32>::empty()) == 0);
    assert(mag_val(seq![lo]) == lo + 0x1_0000_0000 * mag_val(Seq::<u32>::empty()));
    assert(seq![hi].drop_first() =~= Seq::<u32>::empty());
    assert(mag_val(seq![hi]) == hi + 0x1_0000_0000 * mag_val(Seq::<u32>::empty()));
    assert(seq![lo, hi].drop_first() =~= seq![hi]);
    assert(mag_val(seq![lo, hi]) == lo + 0x1_0000_0000 * mag_val(seq![hi]));
}

impl Bint {
    /// The mathematical value.
    pub open spec fn as_int(self) -> int {
        if self.neg {
            -mag_val(self.mag@)
        } else {
            mag_val(self.mag@)
        }
    }

    /// Canonical form: no leading zero digit, and zero is not negative.
    pub open spec fn wf(self) -> bool {
        &&& (self.mag@.len() > 0 ==> self.mag@.last() != 0)
        &&& (self.neg ==> self.mag@.len() > 0)
    }

    /// Zero.
    pub fn zero() -> (r: Bint)
        ensures
            r.wf(),
            r.as_int() == 0,
    {
        Bint { neg: false, mag: Vec::new() }
    }

    pub fn from_u64(x: u64) -> (r: Bint)
        ensures
            r.wf(),
            r.as_int() == x,
    {
        let lo: u32 = #[verifier::truncate] ((x & 0xffff_ffff) as u32);
        let hi: u32 = #[verifier::truncate] ((x >> 32) as u32);
        proof {
            lemma_mag_val_small(lo, hi);
            assert(lo + 0x1_0000_0000 * hi == x) by (bit_vector)
                requires
                    hi == (x >> 32) as u32,
                    lo == (x & 0xffff_ffff) as u32,
            ;
        }
        if x == 0 {
            Bint { neg: false, mag: Vec::new() }
        } else if hi == 0 {
            let mut mag: Vec<u32> = Vec::new();
            mag.push(lo);
            proof {
                assert(mag@ =~= seq![lo]);
            }
            Bint { neg: false, mag }
        } else {
            let mut mag: Vec<u32> = Vec::new();
            mag.push(lo);
            mag.push(hi);
            proof {
                assert(mag@ =~= seq![lo, hi]);
            }
            Bint { neg: false, mag }
        }
    }

    pub fn from_usize(x: usize) -> (r: Bint)
        ensures
            r.wf(),
            r.as_int() == x,
    {
        Bint::from_u64(x as u64)
    }

    /// Whether the value is zero; by canonicity, the digit vector is empty.
    pub fn is_zero(&self) -> (r: bool)
        requires
            self.wf(),
        ensures
            r <==> self.as_int() == 0,
    {
        proof {
            if self.mag@.len() > 0 {
                lemma_mag_val_pos(self.mag@);
            }
        }
        self.mag.len() == 0
    }

    pub fn is_negative(&self) -> (r: bool)
        requires
            self.wf(),
        ensures
            r <==> self.as_int() < 0,
    {
        proof {
            if self.mag@.len() > 0 {
                lemma_mag_val_pos(self.mag@);
            } else {
                assert(mag_val(self.mag@) == 0);
            }
        }
        self.neg
    }

    pub fn is_positive(&self) -> (r: bool)
        requires
            self.wf(),
        ensures
            r <==> self.as_int() > 0,
    {
        proof {
            if self.mag@.len() > 0 {
                lemma_mag_val_pos(self.mag@);
            }
        }
        !self.neg && self.mag.len() > 0
    }

    /// Absolute value.
    pub fn abs(&self) -> (r: Bint)
        requires
            self.wf(),
        ensures
            r.wf(),
            r.as_int() == if self.as_int() < 0 {
                -self.as_int()
            } else {
                self.as_int()
            },
    {
        proof {
            if self.mag@.len() > 0 {
                lemma_mag_val_pos(self.mag@);
            } else {
                assert(mag_val(self.mag@) == 0);
            }
        }
        Bint { neg: false, mag: clone_u32_vec(&self.mag) }
    }

    /// Negation.
    pub fn negate(&self) -> (r: Bint)
        requires
            self.wf(),
        ensures
            r.wf(),
            r.as_int() == -self.as_int(),
    {
        if self.mag.len() == 0 {
            Bint { neg: false, mag: Vec::new() }
        } else {
            Bint { neg: !self.neg, mag: clone_u32_vec(&self.mag) }
        }
    }

    /// The value as a `u64`, when it lies in `0..=u64::MAX`.
    pub fn to_u64(&self) -> (r: Option<u64>)
        requires
            self.wf(),
        ensures
            match r {
                Some(x) => self.as_int() == x,
                None => self.as_int() < 0 || self.as_int() > u64::MAX,
            },
    {
        proof {
            if self.mag@.len() > 0 {
                lemma_mag_val_pos(self.mag@);
            }
        }
        if self.neg {
            None
        } else if self.mag.len() == 0 {
            Some(0)
        } else if self.mag.len() == 1 {
            let lo = self.mag[0];
            proof {
                assert(self.mag@ =~= seq![lo]);
                lemma_mag_val_small(lo, 0);
            }
            Some(lo as u64)
        } else if self.mag.len() == 2 {
            let lo = self.mag[0];
            let hi = self.mag[1];
            proof {
                assert(self.mag@ =~= seq![lo, hi]);
                lemma_mag_val_small(lo, hi);
                assert(lo + 0x1_0000_0000 * (hi as int) <= u64::MAX) by (nonlinear_arith)
                    requires
                        lo <= u32::MAX,
                        hi <= u32::MAX,
                ;
                assert((lo as u64) + ((hi as u64) << 32u64) == lo + 0x1_0000_0000 * hi)
                    by (bit_vector);
            }
            Some((lo as u64) + ((hi as u64) << 32u64))
        } else {
            proof {
                let m = self.mag@;
                let r1 = m.drop_first();
                let r2 = r1.drop_first();
                assert(r1.last() == m.last());
                assert(r2.last() == m.last());
                lemma_mag_val_pos(r2);
                lemma_mag_val_nonneg(r2);
                assert(mag_val(m) == m[0] + 0x1_0000_0000 * mag_val(r1));
                assert(mag_val(r1) == r1[0] + 0x1_0000_0000 * mag_val(r2));
                assert(m[0] + 0x1_0000_0000 * (r1[0] + 0x1_0000_0000 * mag_val(r2))
                    > u64::MAX) by (nonlinear_arith)
                    requires
                        m[0] >= 0,
                        r1[0] >= 0,
                        mag_val(r2) >= 1,
                ;
            }
            None
        }
    }

    /// The value as a `u32`, when it lies in `0..=u32::MAX`.
    pub fn to_u32(&self) -> (r: Option<u32>)
        requires
            self.wf(),
        ensures
            match r {
                Some(x) => self.as_int() == x,
                None => self.as_int() < 0 || self.as_int() > u32::MAX,
            },
    {
        match self.to_u64() {
            Some(x) => if x <= 0xffff_ffff {
                Some(x as u32)
            } else {
                None
            },
            None => None,
        }
    }
}

/// Clone of a digit vector, element for element.
fn clone_u32_vec(v: &Vec<u32>) -> (r: Vec<u32>)
    ensures
        r@ == v@,
{
    let mut r: Vec<u32> = Vec::new();
    let mut i: usize = 0;
    while i < v.len()
        invariant
            i <= v.len(),
            r@ == v@.take(i as int),
        decreases v.len() - i,
    {
        r.push(v[i]);
        proof {
            assert(r@ =~= v@.take(i + 1));
        }
        i += 1;
    }
    proof {
        assert(v@.take(v@.len() as int) =~= v@);
    }
    r
}

impl Clone for Bint {
    fn clone(&self) -> (r: Bint)
        ensures
            r.neg == self.neg,
            r.mag@ == self.mag@,
    {
        Bint { neg: self.neg, mag: clone_u32_vec(&self.mag) }
    }
}

/// Floor modulus over mathematical integers (`/` and `%` on `int` are
/// Euclidean, so the negative-divisor case is adjusted).
pub open spec fn fmod(a: int, b: int) -> int {
    if b > 0 || a % b == 0 {
        a % b
    } else {
        a % b + b
    }
}

/// Floor division over mathematical integers.
pub open spec fn fdiv(a: int, b: int) -> int {
    (a - fmod(a, b)) / b
}

/// Rank used to show that halving terminates: both 0 and -1 halve to
/// themselves under floor division, so they are the base cases.
pub open spec fn bit_rank(a: int) -> int {
    if a >= 0 {
        a
    } else {
        -a - 1
    }
}

/// Bitwise AND of mathematical integers in two's complement.
pub open spec fn and_int(a: int, b: int) -> int
    decreases bit_rank(a) + bit_rank(b),
{
    if a == 0 || b == 0 {
        0
    } else if a == -1 {
        b
    } else if b == -1 {
        a
    } else {
        2 * and_int(a / 2, b / 2) + (a % 2) * (b % 2)
    }
}

/// Bitwise OR of mathematical integers in two's complement.
pub open spec fn or_int(a: int, b: int) -> int
    decreases bit_rank(a) + bit_rank(b),
{
    if a == 0 {
        b
    } else if b == 0 {
        a
    } else if a == -1 || b == -1 {
        -1
    } else {
        2 * or_int(a / 2, b / 2) + (if a % 2 == 1 || b % 2 == 1 {
            1int
        } else {
            0int
        })
    }
}

/// Bitwise XOR of mathematical integers in two's complement.
pub open spec fn xor_int(a: int, b: int) -> int
    decreases bit_rank(a) + bit_rank(b),
{
    if a == 0 {
        b
    } else if b == 0 {
        a
    } else if a == -1 {
        -b - 1
    } else if b == -1 {
        -a - 1
    } else {
        2 * xor_int(a / 2, b / 2) + (a % 2 + b % 2) % 2
    }
}

/// Decimal digits of a non-negative integer, most significant first.
pub open spec fn dec_digits(n: int) -> Seq<u8>
    decreases n,
{
    if n < 10 {
        seq![(n + 0x30) as u8]
    } else {
        dec_digits(n / 10) + seq![(n % 10 + 0x30) as u8]
    }
}

/// Base-10 ASCII form of an integer, with `-` for negative values.
pub open spec fn dec_of(n: int) -> Seq<u8> {
    if n < 0 {
        seq![0x2du8] + dec_digits(-n)
    } else {
        dec_digits(n)
    }
}

/// Relies on `BigInt` addition and on `to_u32_digits`, which returns the
/// sign and the minimal little-endian base-2^32 digits.
#[verifier::external_body]
pub(crate) fn big_add(a: &Bint, b: &Bint) -> (r: Bint)
    ensures
        r.wf(),
        r.as_int() == a.as_int() + b.as_int(),
{
    let x = BigInt::from_slice(if a.neg { Sign::Minus } else { Sign::Plus }, &a.mag);
    let y = BigInt::from_slice(if b.neg { Sign::Minus } else { Sign::Plus }, &b.mag);
    let (s, mag) = (x + y).to_u32_digits();
    Bint { neg: s == Sign::Minus, mag }
}

/// Relies on `BigInt` subtraction and on `to_u32_digits`.
#[verifier::external_body]
pub(crate) fn big_sub(a: &Bint, b: &Bint) -> (r: Bint)
    ensures
        r.wf(),
        r.as_int() == a.as_int() - b.as_int(),
{
    let x = BigInt::from_slice(if a.neg { Sign::Minus } else { Sign::Plus }, &a.mag);
    let y = BigInt::from_slice(if b.neg { Sign::Minus } else { Sign::Plus }, &b.mag);
    let (s, mag) = (x - y).to_u32_digits();
    Bint { neg: s == Sign::Minus, mag }
}

/// Relies on `BigInt` multiplication and on `to_u32_digits`.
#[verifier::external_body]
pub(crate) fn big_mul(a: &Bint, b: &Bint) -> (r: Bint)
    ensures
        r.wf(),
        r.as_int() == a.as_int() * b.as_int(),
{
    let x = BigInt::from_slice(if a.neg { Sign::Minus } else { Sign::Plus }, &a.mag);
    let y = BigInt::from_slice(if b.neg { Sign::Minus } else { Sign::Plus }, &b.mag);
    let (s, mag) = (x * y).to_u32_digits();
    Bint { neg: s == Sign::Minus, mag }
}

/// Relies on `Integer::div_floor` for `BigInt`: floored division.
#[verifier::external_body]
pub(crate) fn big_div_floor(a: &Bint, b: &Bint) -> (r: Bint)
    requires
        b.as_int() != 0,
    ensures
        r.wf(),
        r.as_int() == fdiv(a.as_int(), b.as_int()),
{
    let x = BigInt::from_slice(if a.neg { Sign::Minus } else { Sign::Plus }, &a.mag);
    let y = BigInt::from_slice(if b.neg { Sign::Minus } else { Sign::Plus }, &b.mag);
    let (s, mag) = x.div_floor(&y).to_u32_digits();
    Bint { neg: s == Sign::Minus, mag }
}

/// Relies on `Integer::mod_floor` for `BigInt`: floored modulus, whose
/// result takes the divisor's sign.
#[verifier::external_body]
pub(crate) fn big_mod_floor(a: &Bint, b: &Bint) -> (r: Bint)
    requires
        b.as_int() != 0,
    ensures
        r.wf(),
        r.as_int() == fmod(a.as_int(), b.as_int()),
{
    let x = BigInt::from_slice(if a.neg { Sign::Minus } else { Sign::Plus }, &a.mag);
    let y = BigInt::from_slice(if b.neg { Sign::Minus } else { Sign::Plus }, &b.mag);
    let (s, mag) = x.mod_floor(&y).to_u32_digits();
    Bint { neg: s == Sign::Minus, mag }
}

/// Relies on `BigInt::pow` with a `u32` exponent.
#[verifier::external_body]
pub(crate) fn big_pow(a: &Bint, e: u32) -> (r: Bint)
    ensures
        r.wf(),
        r.as_int() == vstd::arithmetic::power::pow(a.as_int(), e as nat),
{
    let x = BigInt::from_slice(if a.neg { Sign::Minus } else { Sign::Plus }, &a.mag);
    let (s, mag) = x.pow(e).to_u32_digits();
    Bint { neg: s == Sign::Minus, mag }
}

/// Relies on `BigInt`'s bitwise AND, which acts on the two's-complement
/// form of its operands.
#[verifier::external_body]
pub(crate) fn big_and(a: &Bint, b: &Bint) -> (r: Bint)
    ensures
        r.wf(),
        r.as_int() == and_int(a.as_int(), b.as_int()),
{
    let x = BigInt::from_slice(if a.neg { Sign::Minus } else { Sign::Plus }, &a.mag);
    let y = BigInt::from_slice(if b.neg { Sign::Minus } else { Sign::Plus }, &b.mag);
    let (s, mag) = (x & y).to_u32_digits();
    Bint { neg: s == Sign::Minus, mag }
}

/// Relies on `BigInt`'s bitwise OR, in two's complement.
#[verifier::external_body]
pub(crate) fn big_or(a: &Bint, b: &Bint) -> (r: Bint)
    ensures
        r.wf(),
        r.as_int() == or_int(a.as_int(), b.as_int()),
{
    let x = BigInt::from_slice(if a.neg { Sign::Minus } else { Sign::Plus }, &a.mag);
    let y = BigInt::from_slice(if b.neg { Sign::Minus } else { Sign::Plus }, &b.mag);
    let (s, mag) = (x | y).to_u32_digits();
    Bint { neg: s == Sign::Minus, mag }
}

/// Relies on `BigInt`'s bitwise XOR, in two's complement.
#[verifier::external_body]
pub(crate) fn big_xor(a: &Bint, b: &Bint) -> (r: Bint)
    ensures
        r.wf(),
        r.as_int() == xor_int(a.as_int(), b.as_int()),
{
    let x = BigInt::from_slice(if a.neg { Sign::Minus } else { Sign::Plus }, &a.mag);
    let y = BigInt::from_slice(if b.neg { Sign::Minus } else { Sign::Plus }, &b.mag);
    let (s, mag) = (x ^ y).to_u32_digits();
    Bint { neg: s == Sign::Minus, mag }
}

/// Relies on `Ord` for `BigInt`, which orders by numeric value.
#[verifier::external_body]
pub(crate) fn big_cmp(a: &Bint, b: &Bint) -> (r: Ord3)
    ensures
        r == Ord3::Lt <==> a.as_int() < b.as_int(),
        r == Ord3::Eq <==> a.as_int() == b.as_int(),
        r == Ord3::Gt <==> a.as_int() > b.as_int(),
{
    let x = BigInt::from_slice(if a.neg { Sign::Minus } else { Sign::Plus }, &a.mag);
    let y = BigInt::from_slice(if b.neg { Sign::Minus } else { Sign::Plus }, &b.mag);
    match x.cmp(&y) {
        core::cmp::Ordering::Less => Ord3::Lt,
        core::cmp::Ordering::Equal => Ord3::Eq,
        core::cmp::Ordering::Greater => Ord3::Gt,
    }
}

/// Relies on `BigInt::to_str_radix` with radix 10: minimal decimal digits,
/// preceded by `-` for negative values.
#[verifier::external_body]
pub(crate) fn big_to_dec(a: &Bint) -> (r: Vec<u8>)
    ensures
        r@ == dec_of(a.as_int()),
{
    let x = BigInt::from_slice(if a.neg { Sign::Minus } else { Sign::Plus }, &a.mag);
    x.to_str_radix(10).into_bytes()
}

} // verus!
