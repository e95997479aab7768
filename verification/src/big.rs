//! Arbitrary-precision integers held as sign and base-2^32 magnitude
//! digits (least significant first).  The arithmetic itself is done by
//! `num_bigint`; the functions marked as trusted below convert a value to a
//! `BigInt`, make one call, and convert the result back.
use num_bigint::{BigInt, Sign};
use num_integer::Integer;
use num_traits::ToPrimitive;
use vstd::arithmetic::power2::pow2;
use vstd::prelude::*;

verus! {

/// The number of values of one magnitude digit.
pub open spec fn digit_base() -> int {
    0x1_0000_0000int
}

/// Value of a little-endian base-2^32 digit sequence.
pub open spec fn digits_value(s: Seq<u32>) -> nat
    decreases s.len(),
{
    if s.len() == 0 {
        0
    } else {
        (s[0] as nat + digit_base() * digits_value(s.drop_first())) as nat
    }
}

/// A big integer: `neg` is the sign, `mag` the magnitude digits.
#[derive(Debug, PartialEq, Eq, Hash)]
pub struct BigZ {
    pub neg: bool,
    pub mag: Vec<u32>,
}

impl BigZ {
    /// The integer that the digits and the sign stand for.
    pub open spec fn value(self) -> int {
        if self.neg {
            -(digits_value(self.mag@) as int)
        } else {
            digits_value(self.mag@) as int
        }
    }

    /// Canonical form: no leading zero digit, and zero is not negative.
    pub open spec fn wf(self) -> bool {
        &&& (self.mag@.len() == 0 || self.mag@.last() != 0)
        &&& (self.mag@.len() == 0 ==> !self.neg)
    }
}

impl Clone for BigZ {
    fn clone(&self) -> (r: BigZ)
        ensures
            r.neg == self.neg,
            r.mag@ == self.mag@,
    {
        let mag = self.mag.clone();
        proof {
            assert(mag@ =~= self.mag@);
        }
        BigZ { neg: self.neg, mag }
    }
}

/// Dropping a zero top digit does not change the value.
pub proof fn lemma_drop_zero_top(s: Seq<u32>)
    requires
        s.len() > 0,
        s.last() == 0,
    ensures
        digits_value(s) == digits_value(s.drop_last()),
    decreases s.len(),
{
    if s.len() == 1 {
        assert(s.drop_first().len() == 0);
        assert(s.drop_last().len() == 0);
        assert(digits_value(s.drop_first()) == 0);
        assert(digits_value(s.drop_last()) == 0);
    } else {
        assert(s.drop_first().last() == 0);
        lemma_drop_zero_top(s.drop_first());
        assert(s.drop_first().drop_last() =~= s.drop_last().drop_first());
        assert(s.drop_last()[0] == s[0]);
        assert(digits_value(s.drop_last()) == s[0] as nat + digit_base() * digits_value(
            s.drop_last().drop_first(),
        ));
    }
}

/// A sequence of zero digits has value zero.
pub proof fn lemma_all_zero(s: Seq<u32>)
    requires
        forall|i: int| 0 <= i < s.len() ==> s[i] == 0,
    ensures
        digits_value(s) == 0,
    decreases s.len(),
{
    if s.len() > 0 {
        lemma_all_zero(s.drop_first());
    }
}

/// A sequence whose top digit is non-zero has a non-zero value.
pub proof fn lemma_top_nonzero(s: Seq<u32>)
    requires
        s.len() > 0,
        s.last() != 0,
    ensures
        digits_value(s) > 0,
    decreases s.len(),
{
    if s.len() > 1 {
        lemma_top_nonzero(s.drop_first());
    }
}

/// Builds the canonical form of `±mag`.
pub fn normalize(neg: bool, mag: Vec<u32>) -> (r: BigZ)
    ensures
        r.wf(),
        r.value() == (if neg { -(digits_value(mag@) as int) } else { digits_value(mag@) as int }),
{
    let mut m = mag;
    while m.len() > 0 && m[m.len() - 1] == 0
        invariant
            digits_value(m@) == digits_value(mag@),
        decreases m.len(),
    {
        proof {
            lemma_drop_zero_top(m@);
        }
        m.pop();
    }
    proof {
        if m@.len() > 0 {
            lemma_top_nonzero(m@);
        }
    }
    let n = neg && m.len() > 0;
    BigZ { neg: n, mag: m }
}

/// Negation: flips the sign of a non-zero value.
pub fn big_neg(a: &BigZ) -> (r: BigZ)
    requires
        a.wf(),
    ensures
        r.wf(),
        r.value() == -a.value(),
{
    let mag = a.mag.clone();
    proof {
        assert(mag@ =~= a.mag@);
    }
    BigZ { neg: !a.neg && a.mag.len() > 0, mag }
}

/// Absolute value.
pub fn big_abs(a: &BigZ) -> (r: BigZ)
    requires
        a.wf(),
    ensures
        r.wf(),
        r.value() == (if a.value() < 0 { -a.value() } else { a.value() }),
{
    let mag = a.mag.clone();
    proof {
        assert(mag@ =~= a.mag@);
    }
    BigZ { neg: false, mag }
}

/// Trusted: `BigInt::from(i128)` followed by `BigInt::to_u32_digits`.
/// Claims that the digits and sign stand for `x`.
#[verifier::external_body]
pub(crate) fn big_from_i128(x: i128) -> (r: BigZ)
    ensures
        r.value() == x as int,
{
    let (s, mag) = BigInt::from(x).to_u32_digits();
    let neg = match s {
        Sign::Minus => true,
        _ => false,
    };
    BigZ { neg, mag }
}

/// Trusted: `ToPrimitive::to_i128` on the `BigInt` of `a`.  Claims `Some`
/// exactly when the value fits an `i128`, with that value.
#[verifier::external_body]
pub(crate) fn big_to_i128(a: &BigZ) -> (r: Option<i128>)
    ensures
        r matches Some(x) ==> x as int == a.value(),
        r is None <==> !(i128::MIN <= a.value() <= i128::MAX),
{
    let s = if a.neg { Sign::Minus } else { Sign::Plus };
    BigInt::from_slice(s, &a.mag).to_i128()
}

/// Trusted: `BigInt + BigInt`.  Claims the exact sum.
#[verifier::external_body]
pub(crate) fn big_add_raw(a: &BigZ, b: &BigZ) -> (r: BigZ)
    ensures
        r.value() == a.value() + b.value(),
{
    let sa = if a.neg { Sign::Minus } else { Sign::Plus };
    let sb = if b.neg { Sign::Minus } else { Sign::Plus };
    let (s, mag) = (BigInt::from_slice(sa, &a.mag) + BigInt::from_slice(sb, &b.mag)).to_u32_digits();
    let neg = match s {
        Sign::Minus => true,
        _ => false,
    };
    BigZ { neg, mag }
}

/// Trusted: `BigInt - BigInt`.  Claims the exact difference.
#[verifier::external_body]
pub(crate) fn big_sub_raw(a: &BigZ, b: &BigZ) -> (r: BigZ)
    ensures
        r.value() == a.value() - b.value(),
{
    let sa = if a.neg { Sign::Minus } else { Sign::Plus };
    let sb = if b.neg { Sign::Minus } else { Sign::Plus };
    let (s, mag) = (BigInt::from_slice(sa, &a.mag) - BigInt::from_slice(sb, &b.mag)).to_u32_digits();
    let neg = match s {
        Sign::Minus => true,
        _ => false,
    };
    BigZ { neg, mag }
}

/// Trusted: `BigInt * BigInt`.  Claims the exact product.
#[verifier::external_body]
pub(crate) fn big_mul_raw(a: &BigZ, b: &BigZ) -> (r: BigZ)
    ensures
        r.value() == a.value() * b.value(),
{
    let sa = if a.neg { Sign::Minus } else { Sign::Plus };
    let sb = if b.neg { Sign::Minus } else { Sign::Plus };
    let (s, mag) = (BigInt::from_slice(sa, &a.mag) * BigInt::from_slice(sb, &b.mag)).to_u32_digits();
    let neg = match s {
        Sign::Minus => true,
        _ => false,
    };
    BigZ { neg, mag }
}

} // verus!

verus! {

/// Trusted: `Integer::gcd` on `BigInt`.  Claims the non-negative greatest
/// common divisor.
#[verifier::external_body]
pub(crate) fn big_gcd_raw(a: &BigZ, b: &BigZ) -> (r: BigZ)
    ensures
        r.value() == crate::arith::gcd(crate::arith::abs(a.value()), crate::arith::abs(b.value())) as int,
{
    let sa = if a.neg { Sign::Minus } else { Sign::Plus };
    let sb = if b.neg { Sign::Minus } else { Sign::Plus };
    let (s, mag) = BigInt::from_slice(sa, &a.mag).gcd(&BigInt::from_slice(sb, &b.mag)).to_u32_digits();
    let neg = match s {
        Sign::Minus => true,
        _ => false,
    };
    BigZ { neg, mag }
}

/// Trusted: `Integer::div_rem` on `BigInt` (truncating division).  Claims
/// the quotient rounded toward zero and the matching remainder.
#[verifier::external_body]
pub(crate) fn big_div_rem_raw(a: &BigZ, b: &BigZ) -> (r: (BigZ, BigZ))
    requires
        b.value() != 0,
    ensures
        r.0.value() == crate::arith::trunc_div(a.value(), b.value()),
        r.1.value() == crate::arith::trunc_rem(a.value(), b.value()),
{
    let sa = if a.neg { Sign::Minus } else { Sign::Plus };
    let sb = if b.neg { Sign::Minus } else { Sign::Plus };
    let (q, r) = BigInt::from_slice(sa, &a.mag).div_rem(&BigInt::from_slice(sb, &b.mag));
    let (s1, m1) = q.to_u32_digits();
    let (s2, m2) = r.to_u32_digits();
    let n1 = match s1 {
        Sign::Minus => true,
        _ => false,
    };
    let n2 = match s2 {
        Sign::Minus => true,
        _ => false,
    };
    (BigZ { neg: n1, mag: m1 }, BigZ { neg: n2, mag: m2 })
}

/// Trusted: `BigInt % BigInt` (remainder of the truncating division).
/// Claims that remainder.
#[verifier::external_body]
pub(crate) fn big_rem_raw(a: &BigZ, b: &BigZ) -> (r: BigZ)
    requires
        b.value() != 0,
    ensures
        r.value() == crate::arith::trunc_rem(a.value(), b.value()),
{
    let sa = if a.neg { Sign::Minus } else { Sign::Plus };
    let sb = if b.neg { Sign::Minus } else { Sign::Plus };
    let (s, mag) = (BigInt::from_slice(sa, &a.mag) % BigInt::from_slice(sb, &b.mag)).to_u32_digits();
    let neg = match s {
        Sign::Minus => true,
        _ => false,
    };
    BigZ { neg, mag }
}

/// Trusted: `Ord::cmp` on `BigInt`.  Claims `-1`, `0` or `1` as `a` is
/// below, equal to or above `b`.
#[verifier::external_body]
pub(crate) fn big_compare(a: &BigZ, b: &BigZ) -> (r: i8)
    ensures
        r == (if a.value() < b.value() { -1i8 } else if a.value() == b.value() { 0i8 } else { 1i8 }),
{
    let sa = if a.neg { Sign::Minus } else { Sign::Plus };
    let sb = if b.neg { Sign::Minus } else { Sign::Plus };
    match BigInt::from_slice(sa, &a.mag).cmp(&BigInt::from_slice(sb, &b.mag)) {
        std::cmp::Ordering::Less => -1,
        std::cmp::Ordering::Equal => 0,
        std::cmp::Ordering::Greater => 1,
    }
}

/// Trusted: `BigInt`'s `FromStr`.  Claims `Some` exactly for the literals
/// of [`crate::text::big_int_literal`], with their value.
#[verifier::external_body]
pub(crate) fn big_parse_raw(s: &str) -> (r: Option<BigZ>)
    ensures
        r is Some <==> crate::text::big_int_literal(s@) is Some,
        r matches Some(b) ==> crate::text::big_int_literal(s@) == Some(b.value()),
{
    match s.parse::<BigInt>() {
        Ok(b) => {
            let (sg, mag) = b.to_u32_digits();
            let neg = match sg {
                Sign::Minus => true,
                _ => false,
            };
            Some(BigZ { neg, mag })
        },
        Err(_) => None,
    }
}

/// Trusted: `BigInt` formatted with `Display`.  Claims its decimal notation.
#[verifier::external_body]
pub(crate) fn big_to_string(a: &BigZ) -> (r: String)
    ensures
        r@ == crate::text::int_repr(a.value()),
{
    let sa = if a.neg { Sign::Minus } else { Sign::Plus };
    format!("{}", BigInt::from_slice(sa, &a.mag))
}

} // verus!
