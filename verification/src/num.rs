//! Exact arithmetic: the hybrid integer `Z` (an `i128` that moves to a big
//! integer exactly when its value leaves the `i128` range), normalised
//! rationals `Q`, and rational points over one common denominator.
use crate::arith::{abs, divides, gcd, lemma_divides_iff_mod, lemma_trunc_rem, times, trunc_div, trunc_rem};
use crate::text::{big_int_literal, find_first, first_of, int_repr, parse_i128, parse_i32, std_int_literal, str_chars, str_trim, string_from_chars, strip_sign_chars, strip_signs, sub_chars, trimmed, i128_to_string};
use crate::big::{big_compare, big_div_rem_raw, big_gcd_raw, big_parse_raw, big_rem_raw, big_to_string};
use num_integer::Integer;
use crate::big::{big_abs, big_add_raw, big_from_i128, big_mul_raw, big_neg, big_sub_raw, big_to_i128, normalize, BigZ};
use vstd::arithmetic::power::pow;
use vstd::prelude::*;

verus! {

/// Hybrid integer.  Invariant (`wf`): the `B` variant only ever holds
/// values outside the `i128` range, in canonical form, so that structural
/// equality is equality of values.
#[derive(Debug, PartialEq, Eq, Hash)]
pub enum Z {
    S(i128),
    B(BigZ),
}

impl View for Z {
    type V = int;

    open spec fn view(&self) -> int {
        match self {
            Z::S(x) => *x as int,
            Z::B(b) => b.value(),
        }
    }
}

/// Trusted: `i128::checked_neg`.  Claims `None` exactly for `i128::MIN`,
/// and the negation otherwise.
pub assume_specification[ i128::checked_neg ](x: i128) -> (r: Option<i128>)
    ensures
        r is None <==> x == i128::MIN,
        r matches Some(y) ==> y as int == -(x as int),
;

/// Trusted: `i128::checked_abs`.  Claims `None` exactly for `i128::MIN`,
/// and the absolute value otherwise.
pub assume_specification[ i128::checked_abs ](x: i128) -> (r: Option<i128>)
    ensures
        r is None <==> x == i128::MIN,
        r matches Some(y) ==> y as int == abs(x as int),
;

pub open spec fn in_i128(x: int) -> bool {
    i128::MIN <= x <= i128::MAX
}

impl Z {
    pub open spec fn wf(self) -> bool {
        match self {
            Z::S(_) => true,
            Z::B(b) => b.wf() && !in_i128(b.value()),
        }
    }
}

impl Clone for Z {
    fn clone(&self) -> (r: Z)
        ensures
            r@ == self@,
            self.wf() ==> r.wf(),
    {
        match self {
            Z::S(x) => Z::S(*x),
            Z::B(b) => Z::B(b.clone()),
        }
    }
}

impl Default for Z {
    fn default() -> (r: Z)
        ensures
            r@ == 0,
            r.wf(),
    {
        Z::S(0)
    }
}

/// Integer values of a sequence of `Z`.
pub open spec fn zvals(s: Seq<Z>) -> Seq<int> {
    s.map_values(|z: Z| z@)
}

/// Every entry is well formed.
pub open spec fn all_wf(s: Seq<Z>) -> bool {
    forall|i: int| 0 <= i < s.len() ==> (#[trigger] s[i]).wf()
}

/// `-1`, `0` or `1`.
pub open spec fn sign_of(x: int) -> int {
    if x < 0 {
        -1
    } else if x == 0 {
        0
    } else {
        1
    }
}

impl Z {
    pub fn zero() -> (r: Z)
        ensures
            r@ == 0,
            r.wf(),
    {
        Z::S(0)
    }

    pub fn one() -> (r: Z)
        ensures
            r@ == 1,
            r.wf(),
    {
        Z::S(1)
    }

    /// Moves a big value back to `i128` when it fits.
    pub fn from_big(b: BigZ) -> (r: Z)
        requires
            b.wf(),
        ensures
            r@ == b.value(),
            r.wf(),
    {
        match big_to_i128(&b) {
            Some(x) => Z::S(x),
            None => Z::B(b),
        }
    }

    /// The value as a big integer.
    pub fn to_big(&self) -> (r: BigZ)
        requires
            self.wf(),
        ensures
            r.value() == self@,
            r.wf(),
    {
        match self {
            Z::S(x) => {
                let b = big_from_i128(*x);
                normalize(b.neg, b.mag)
            },
            Z::B(b) => b.clone(),
        }
    }

    pub fn is_zero(&self) -> (r: bool)
        requires
            self.wf(),
        ensures
            r == (self@ == 0),
    {
        match self {
            Z::S(x) => *x == 0,
            Z::B(_) => false,
        }
    }

    pub fn is_one(&self) -> (r: bool)
        requires
            self.wf(),
        ensures
            r == (self@ == 1),
    {
        match self {
            Z::S(x) => *x == 1,
            Z::B(_) => false,
        }
    }

    pub fn signum(&self) -> (r: i8)
        requires
            self.wf(),
        ensures
            r as int == sign_of(self@),
    {
        match self {
            Z::S(x) => {
                if *x < 0 {
                    -1
                } else if *x == 0 {
                    0
                } else {
                    1
                }
            },
            Z::B(b) => {
                proof {
                    if !b.neg {
                        if b.mag@.len() == 0 {
                            assert(b.value() == 0);
                        }
                    }
                }
                if !b.neg {
                    1
                } else {
                    -1
                }
            },
        }
    }

    pub fn is_positive(&self) -> (r: bool)
        requires
            self.wf(),
        ensures
            r == (self@ > 0),
    {
        self.signum() > 0
    }

    pub fn is_negative(&self) -> (r: bool)
        requires
            self.wf(),
        ensures
            r == (self@ < 0),
    {
        self.signum() < 0
    }

    pub fn abs(&self) -> (r: Z)
        requires
            self.wf(),
        ensures
            r@ == abs(self@),
            r.wf(),
    {
        match self {
            Z::S(x) => match x.checked_abs() {
                Some(a) => Z::S(a),
                None => Z::from_big(big_abs(&big_from_i128_wf(*x))),
            },
            Z::B(b) => Z::from_big(big_abs(b)),
        }
    }
}

/// `big_from_i128` followed by normalisation.
pub fn big_from_i128_wf(x: i128) -> (r: BigZ)
    ensures
        r.value() == x as int,
        r.wf(),
{
    let b = big_from_i128(x);
    normalize(b.neg, b.mag)
}

pub fn big_add(a: &BigZ, b: &BigZ) -> (r: BigZ)
    ensures
        r.value() == a.value() + b.value(),
        r.wf(),
{
    let t = big_add_raw(a, b);
    normalize(t.neg, t.mag)
}

pub fn big_sub(a: &BigZ, b: &BigZ) -> (r: BigZ)
    ensures
        r.value() == a.value() - b.value(),
        r.wf(),
{
    let t = big_sub_raw(a, b);
    normalize(t.neg, t.mag)
}

pub fn big_mul(a: &BigZ, b: &BigZ) -> (r: BigZ)
    ensures
        r.value() == a.value() * b.value(),
        r.wf(),
{
    let t = big_mul_raw(a, b);
    normalize(t.neg, t.mag)
}

/// Exact sum.
pub fn add_zz(a: &Z, b: &Z) -> (r: Z)
    requires
        a.wf(),
        b.wf(),
    ensures
        r@ == a@ + b@,
        r.wf(),
{
    match (a, b) {
        (Z::S(x), Z::S(y)) => match x.checked_add(*y) {
            Some(s) => Z::S(s),
            None => Z::from_big(big_add(&big_from_i128_wf(*x), &big_from_i128_wf(*y))),
        },
        _ => Z::from_big(big_add(&a.to_big(), &b.to_big())),
    }
}

/// Exact difference.
pub fn sub_zz(a: &Z, b: &Z) -> (r: Z)
    requires
        a.wf(),
        b.wf(),
    ensures
        r@ == a@ - b@,
        r.wf(),
{
    match (a, b) {
        (Z::S(x), Z::S(y)) => match x.checked_sub(*y) {
            Some(s) => Z::S(s),
            None => Z::from_big(big_sub(&big_from_i128_wf(*x), &big_from_i128_wf(*y))),
        },
        _ => Z::from_big(big_sub(&a.to_big(), &b.to_big())),
    }
}

/// Exact product.
pub fn mul_zz(a: &Z, b: &Z) -> (r: Z)
    requires
        a.wf(),
        b.wf(),
    ensures
        r@ == a@ * b@,
        r.wf(),
{
    match (a, b) {
        (Z::S(x), Z::S(y)) => match x.checked_mul(*y) {
            Some(s) => Z::S(s),
            None => Z::from_big(big_mul(&big_from_i128_wf(*x), &big_from_i128_wf(*y))),
        },
        _ => Z::from_big(big_mul(&a.to_big(), &b.to_big())),
    }
}

/// Exact negation.
pub fn neg_z(a: &Z) -> (r: Z)
    requires
        a.wf(),
    ensures
        r@ == -a@,
        r.wf(),
{
    match a {
        Z::S(x) => match x.checked_neg() {
            Some(s) => Z::S(s),
            None => Z::from_big(big_neg(&big_from_i128_wf(*x))),
        },
        Z::B(b) => Z::from_big(big_neg(b)),
    }
}


/// Trusted: `Integer::gcd` on `i128`.  Claims the greatest common divisor
/// of two non-negative arguments.
#[verifier::external_body]
pub(crate) fn i128_gcd(a: i128, b: i128) -> (r: i128)
    requires
        a >= 0,
        b >= 0,
    ensures
        r as int == gcd(a as nat, b as nat) as int,
{
    a.gcd(&b)
}

/// The answer of a comparison: `-1`, `0` or `1`.
pub open spec fn order_of(a: int, b: int) -> int {
    sign_of(a - b)
}

/// What `Z::parse` accepts, on trimmed text: a primitive literal that fits
/// `i128`, or else a big-integer literal.
pub open spec fn z_literal(t: Seq<char>) -> Option<int> {
    if std_int_literal(t) is Some && in_i128(std_int_literal(t)->0) {
        std_int_literal(t)
    } else {
        big_int_literal(t)
    }
}

impl Z {
    /// Non-negative gcd of the two values.
    pub fn gcd(&self, o: &Z) -> (r: Z)
        requires
            self.wf(),
            o.wf(),
        ensures
            r@ == gcd(abs(self@), abs(o@)) as int,
            r.wf(),
    {
        match (self, o) {
            (Z::S(a), Z::S(b)) => {
                if *a == i128::MIN || *b == i128::MIN {
                    let g = big_gcd_raw(&big_from_i128_wf(*a), &big_from_i128_wf(*b));
                    Z::from_big(normalize(g.neg, g.mag))
                } else {
                    let aa = if *a < 0 { -*a } else { *a };
                    let bb = if *b < 0 { -*b } else { *b };
                    Z::S(i128_gcd(aa, bb))
                }
            },
            _ => {
                let g = big_gcd_raw(&self.to_big(), &o.to_big());
                Z::from_big(normalize(g.neg, g.mag))
            },
        }
    }

    /// Quotient rounded toward zero; exact when `o` divides `self`.
    pub fn div_exact(&self, o: &Z) -> (r: Z)
        requires
            self.wf(),
            o.wf(),
            o@ != 0,
        ensures
            r@ == trunc_div(self@, o@),
            divides(o@, self@) ==> r@ * o@ == self@,
            r.wf(),
    {
        proof {
            lemma_trunc_rem(self@, o@);
            lemma_divides_iff_mod(o@, self@);
        }
        match (self, o) {
            (Z::S(a), Z::S(b)) => match a.checked_div(*b) {
                Some(q) => Z::S(q),
                None => {
                    let (q, _) = big_div_rem_raw(&big_from_i128_wf(*a), &big_from_i128_wf(*b));
                    Z::from_big(normalize(q.neg, q.mag))
                },
            },
            _ => {
                let (q, _) = big_div_rem_raw(&self.to_big(), &o.to_big());
                Z::from_big(normalize(q.neg, q.mag))
            },
        }
    }

    /// `self` is non-zero and divides `o`.
    pub fn divides(&self, o: &Z) -> (r: bool)
        requires
            self.wf(),
            o.wf(),
            !(self@ == -1 && o@ == i128::MIN as int),
        ensures
            r == (self@ != 0 && divides(self@, o@)),
    {
        if self.is_zero() {
            return false;
        }
        proof {
            lemma_trunc_rem(o@, self@);
            lemma_divides_iff_mod(self@, o@);
        }
        match (self, o) {
            (Z::S(a), Z::S(b)) => match b.checked_rem(*a) {
                Some(m) => {
                    proof {
                        let x = *b as int;
                        let d = *a as int;
                        let r = abs(x) % abs(d);
                        if x == 0 {
                            vstd::arithmetic::div_mod::lemma_small_mod(0, abs(d));
                            assert(m == 0);
                        } else if x > 0 && d > 0 {
                            assert(m as int == r);
                        } else if x > 0 && d < 0 {
                            assert(m as int == x % (d * -1));
                            assert(abs(d) as int == d * -1);
                            assert(m as int == r);
                        } else if x < 0 && d < 0 {
                            assert(m as int == ((x * -1) % (d * -1)) * -1);
                            assert(abs(d) as int == d * -1);
                            assert(abs(x) as int == x * -1);
                            assert(m as int == -r);
                        } else {
                            assert(m as int == ((x * -1) % d) * -1);
                            assert(abs(x) as int == x * -1);
                            assert(m as int == -r);
                        }
                        assert((m == 0) == (abs(x) % abs(d) == 0));
                    }
                    m == 0
                },
                None => true,
            },
            _ => {
                let m = big_rem_raw(&o.to_big(), &self.to_big());
                let m = normalize(m.neg, m.mag);
                proof {
                    if m.mag@.len() > 0 {
                        crate::big::lemma_top_nonzero(m.mag@);
                    }
                }
                m.mag.len() == 0
            },
        }
    }

    /// The exact quotient `self / o`, or `None` when `o` leaves a remainder.
    pub fn div_checked(&self, o: &Z) -> (r: Option<Z>)
        requires
            self.wf(),
            o.wf(),
            o@ != 0,
        ensures
            r is None <==> !divides(o@, self@),
            r matches Some(q) ==> q.wf() && q@ * o@ == self@,
    {
        proof {
            lemma_trunc_rem(self@, o@);
            lemma_divides_iff_mod(o@, self@);
        }
        match (self, o) {
            (Z::S(_), Z::S(b)) => {
                if *b == -1 {
                    proof {
                        assert(self@ == times(o@, -self@));
                    }
                } else if !o.divides(self) {
                    return None;
                }
                Some(self.div_exact(o))
            },
            _ => {
                let (q, m) = big_div_rem_raw(&self.to_big(), &o.to_big());
                let m = normalize(m.neg, m.mag);
                proof {
                    if m.mag@.len() > 0 {
                        crate::big::lemma_top_nonzero(m.mag@);
                    }
                }
                if m.mag.len() == 0 {
                    Some(Z::from_big(normalize(q.neg, q.mag)))
                } else {
                    None
                }
            },
        }
    }

    /// `self` to the power `e`.
    pub fn pow(&self, e: u32) -> (r: Z)
        requires
            self.wf(),
        ensures
            r@ == pow(self@, e as nat),
            r.wf(),
    {
        let mut r = Z::one();
        let mut i: u32 = 0;
        proof {
            reveal(pow);
        }
        while i < e
            invariant
                i <= e,
                r@ == pow(self@, i as nat),
                r.wf(),
                self.wf(),
            decreases e - i,
        {
            let ghost prev = r@;
            r = mul_zz(&r, self);
            i = i + 1;
            proof {
                reveal(pow);
                assert(pow(self@, i as nat) == self@ * pow(self@, (i - 1) as nat));
                vstd::arithmetic::mul::lemma_mul_is_commutative(prev, self@);
            }
        }
        r
    }

    pub fn to_i64(&self) -> (r: Option<i64>)
        requires
            self.wf(),
        ensures
            r is Some <==> i64::MIN <= self@ <= i64::MAX,
            r matches Some(x) ==> x as int == self@,
    {
        match self {
            Z::S(x) => {
                if i64::MIN as i128 <= *x && *x <= i64::MAX as i128 {
                    Some(*x as i64)
                } else {
                    None
                }
            },
            Z::B(_) => None,
        }
    }

    /// Parses an integer literal, surrounding whitespace allowed.
    pub fn parse(s: &str) -> (r: Option<Z>)
        ensures
            r is Some <==> z_literal(trimmed(s@)) is Some,
            r matches Some(z) ==> z_literal(trimmed(s@)) == Some(z@) && z.wf(),
    {
        let t = str_trim(s);
        if let Some(x) = parse_i128(t) {
            return Some(Z::S(x));
        }
        match big_parse_raw(t) {
            Some(b) => Some(Z::from_big(normalize(b.neg, b.mag))),
            None => None,
        }
    }

    /// `-1`, `0` or `1` as `self` is below, equal to or above `o`.
    pub fn compare(&self, o: &Z) -> (r: i8)
        requires
            self.wf(),
            o.wf(),
        ensures
            r as int == order_of(self@, o@),
    {
        match (self, o) {
            (Z::S(a), Z::S(b)) => {
                if *a < *b {
                    -1
                } else if *a == *b {
                    0
                } else {
                    1
                }
            },
            _ => big_compare(&self.to_big(), &o.to_big()),
        }
    }

    /// Value equality.
    pub fn eq_z(&self, o: &Z) -> (r: bool)
        requires
            self.wf(),
            o.wf(),
        ensures
            r == (self@ == o@),
    {
        self.compare(o) == 0
    }

    /// Decimal notation.
    pub fn to_string(&self) -> (r: String)
        requires
            self.wf(),
        ensures
            r@ == int_repr(self@),
    {
        match self {
            Z::S(x) => i128_to_string(*x),
            Z::B(b) => big_to_string(b),
        }
    }

    pub fn from_i64(x: i64) -> (r: Z)
        ensures
            r@ == x as int,
            r.wf(),
    {
        Z::S(x as i128)
    }

    pub fn from_usize(x: usize) -> (r: Z)
        ensures
            r@ == x as int,
            r.wf(),
    {
        Z::S(x as i128)
    }
}

impl From<i64> for Z {
    fn from(x: i64) -> (r: Z) {
        Z::S(x as i128)
    }
}

impl vstd::std_specs::convert::FromSpecImpl<i64> for Z {
    open spec fn obeys_from_spec() -> bool {
        true
    }

    open spec fn from_spec(x: i64) -> Z {
        Z::S(x as i128)
    }
}

impl From<i32> for Z {
    fn from(x: i32) -> (r: Z) {
        Z::S(x as i128)
    }
}

impl vstd::std_specs::convert::FromSpecImpl<i32> for Z {
    open spec fn obeys_from_spec() -> bool {
        true
    }

    open spec fn from_spec(x: i32) -> Z {
        Z::S(x as i128)
    }
}

impl From<usize> for Z {
    fn from(x: usize) -> (r: Z) {
        Z::S(x as i128)
    }
}

impl vstd::std_specs::convert::FromSpecImpl<usize> for Z {
    open spec fn obeys_from_spec() -> bool {
        true
    }

    open spec fn from_spec(x: usize) -> Z {
        Z::S(x as i128)
    }
}

impl From<i128> for Z {
    fn from(x: i128) -> (r: Z) {
        Z::S(x)
    }
}

impl vstd::std_specs::convert::FromSpecImpl<i128> for Z {
    open spec fn obeys_from_spec() -> bool {
        true
    }

    open spec fn from_spec(x: i128) -> Z {
        Z::S(x)
    }
}


/// `Σ_{i<n} a[i]·b[i]`.
pub open spec fn dot_prefix(a: Seq<int>, b: Seq<int>, n: int) -> int
    decreases n,
{
    if n <= 0 {
        0
    } else {
        dot_prefix(a, b, n - 1) + a[n - 1] * b[n - 1]
    }
}

/// Dot product of two integer vectors.
pub open spec fn dot_int(a: Seq<int>, b: Seq<int>) -> int {
    dot_prefix(a, b, a.len() as int)
}

/// Dot product of two integer vectors (i128 fast path, exact fallback).
pub fn dot(a: &[Z], b: &[Z]) -> (r: Z)
    requires
        a@.len() == b@.len(),
        all_wf(a@),
        all_wf(b@),
    ensures
        r@ == dot_int(zvals(a@), zvals(b@)),
        r.wf(),
{
    let mut acc: i128 = 0;
    let mut i: usize = 0;
    while i < a.len()
        invariant
            a@.len() == b@.len(),
            i <= a@.len(),
            all_wf(a@),
            all_wf(b@),
            acc as int == dot_prefix(zvals(a@), zvals(b@), i as int),
        decreases a@.len() - i,
    {
        match (&a[i], &b[i]) {
            (Z::S(p), Z::S(q)) => {
                let m = p.checked_mul(*q);
                match m {
                    Some(m) => match acc.checked_add(m) {
                        Some(v) => acc = v,
                        None => return dot_slow(a, b),
                    },
                    None => return dot_slow(a, b),
                }
            },
            _ => return dot_slow(a, b),
        }
        i = i + 1;
    }
    Z::S(acc)
}

/// Dot product through the exact operations, skipping zero terms.
pub fn dot_slow(a: &[Z], b: &[Z]) -> (r: Z)
    requires
        a@.len() == b@.len(),
        all_wf(a@),
        all_wf(b@),
    ensures
        r@ == dot_int(zvals(a@), zvals(b@)),
        r.wf(),
{
    let mut s = Z::zero();
    let mut i: usize = 0;
    while i < a.len()
        invariant
            a@.len() == b@.len(),
            i <= a@.len(),
            all_wf(a@),
            all_wf(b@),
            s@ == dot_prefix(zvals(a@), zvals(b@), i as int),
            s.wf(),
        decreases a@.len() - i,
    {
        let x = &a[i];
        let y = &b[i];
        if !x.is_zero() && !y.is_zero() {
            s = add_zz(&s, &mul_zz(x, y));
        }
        i = i + 1;
    }
    s
}

/// Dot products agree when their termwise products agree.
pub proof fn lemma_dot_termwise(a: Seq<int>, x: Seq<int>, b: Seq<int>, y: Seq<int>, n: int)
    requires
        0 <= n,
        forall|j: int| 0 <= j < n ==> #[trigger] (a[j] * x[j]) == b[j] * y[j],
    ensures
        dot_prefix(a, x, n) == dot_prefix(b, y, n),
    decreases n,
{
    if n > 0 {
        assert(a[n - 1] * x[n - 1] == b[n - 1] * y[n - 1]);
        lemma_dot_termwise(a, x, b, y, n - 1);
    }
}

/// The dot product is linear in its first argument:
/// `(p·r − c·e)·x = p·(r·x) − c·(e·x)`.
pub proof fn lemma_dot_lincomb(t: Seq<int>, r: Seq<int>, e: Seq<int>, x: Seq<int>, p: int, c: int, n: int)
    requires
        0 <= n,
        forall|j: int| 0 <= j < n ==> #[trigger] t[j] == p * r[j] - c * e[j],
    ensures
        dot_prefix(t, x, n) == p * dot_prefix(r, x, n) - c * dot_prefix(e, x, n),
    decreases n,
{
    if n > 0 {
        lemma_dot_lincomb(t, r, e, x, p, c, n - 1);
        let (a, b, f, g) = (dot_prefix(r, x, n - 1), dot_prefix(e, x, n - 1), r[n - 1] * x[n - 1], e[n - 1] * x[n - 1]);
        assert(t[n - 1] * x[n - 1] == p * f - c * g) by (nonlinear_arith)
            requires
                t[n - 1] == p * r[n - 1] - c * e[n - 1],
                f == r[n - 1] * x[n - 1],
                g == e[n - 1] * x[n - 1],
        ;
        assert(p * a - c * b + (p * f - c * g) == p * (a + f) - c * (b + g)) by (nonlinear_arith);
    }
}

/// Scaling the second argument scales the dot product.
pub proof fn lemma_dot_scale(a: Seq<int>, x: Seq<int>, y: Seq<int>, c: int, n: int)
    requires
        0 <= n,
        forall|j: int| 0 <= j < n ==> #[trigger] y[j] == c * x[j],
    ensures
        dot_prefix(a, y, n) == c * dot_prefix(a, x, n),
    decreases n,
{
    if n > 0 {
        lemma_dot_scale(a, x, y, c, n - 1);
        let (s, u) = (dot_prefix(a, x, n - 1), a[n - 1] * x[n - 1]);
        assert(a[n - 1] * y[n - 1] == c * u) by (nonlinear_arith)
            requires
                y[n - 1] == c * x[n - 1],
                u == a[n - 1] * x[n - 1],
        ;
        assert(c * s + c * u == c * (s + u)) by (nonlinear_arith);
    }
}

/// Changing one entry of the second argument.
pub proof fn lemma_dot_update(a: Seq<int>, x: Seq<int>, p: int, v: int, n: int)
    requires
        0 <= p < x.len(),
        0 <= n <= x.len(),
    ensures
        dot_prefix(a, x.update(p, v), n) == dot_prefix(a, x, n) + (if p < n { a[p] * (v - x[p]) } else { 0 }),
    decreases n,
{
    if n > 0 {
        lemma_dot_update(a, x, p, v, n - 1);
        if n - 1 == p {
            assert(a[p] * v == a[p] * x[p] + a[p] * (v - x[p])) by (nonlinear_arith);
        }
    }
}

/// Gcd of the absolute values of all entries (0 for the empty or zero vector).
pub open spec fn gcd_seq(s: Seq<int>) -> nat {
    crate::arith::gcd_fold(0, s)
}

/// The gcd of a vector divides each entry.
pub proof fn lemma_gcd_seq_divides(s: Seq<int>, i: int)
    requires
        0 <= i < s.len(),
    ensures
        divides(gcd_seq(s) as int, s[i]),
{
    crate::arith::lemma_gcd_fold_divides(0, s);
}

/// Gcd of all entries (non-negative; 0 if all zero).
pub fn gcd_all(v: &[Z]) -> (r: Z)
    requires
        all_wf(v@),
    ensures
        r@ == gcd_seq(zvals(v@)) as int,
        r.wf(),
{
    let mut g = Z::zero();
    let mut i: usize = 0;
    let ghost s = zvals(v@);
    while i < v.len()
        invariant
            i <= v@.len(),
            s == zvals(v@),
            all_wf(v@),
            g@ == gcd_seq(s.take(i as int)) as int,
            g.wf(),
        decreases v@.len() - i,
    {
        let x = &v[i];
        proof {
            assert(s.take(i + 1).drop_last() =~= s.take(i as int));
            assert(s.take(i + 1).last() == x@);
            assert(gcd_seq(s.take(i + 1)) == gcd(gcd_seq(s.take(i as int)), abs(x@)));
        }
        if !x.is_zero() {
            proof {
                assert(gcd_seq(s.take(i + 1)) == gcd(gcd_seq(s.take(i as int)), abs(x@)));
            }
            if g.is_zero() {
                proof {
                    crate::arith::lemma_gcd_zero_left(abs(x@));
                }
                g = x.abs();
            } else {
                g = g.gcd(x);
            }
            if g.is_one() {
                proof {
                    crate::arith::lemma_gcd_fold_one(0, s, i + 1);
                }
                return g;
            }
        }
        i = i + 1;
    }
    proof {
        assert(s.take(v@.len() as int) =~= s);
    }
    g
}

/// Divide the vector by the gcd of its entries.  Does not touch the sign.
pub fn make_primitive(v: &mut Vec<Z>)
    requires
        all_wf(old(v)@),
    ensures
        final(v)@.len() == old(v)@.len(),
        all_wf(final(v)@),
        forall|i: int|
            0 <= i < final(v)@.len() ==> (#[trigger] final(v)@[i])@ * (if gcd_seq(zvals(old(v)@)) == 0 { 1 } else { gcd_seq(zvals(old(v)@)) as int }) == old(v)@[i]@,
        gcd_seq(zvals(old(v)@)) != 0 ==> gcd_seq(zvals(final(v)@)) == 1,
{
    let g = gcd_all(v.as_slice());
    let ghost gg = gcd_seq(zvals(old(v)@));
    proof {
        assert forall|j: int| 0 <= j < old(v)@.len() implies divides(gg as int, (#[trigger] old(v)@[j])@) by {
            lemma_gcd_seq_divides(zvals(old(v)@), j);
        }
    }
    if !g.is_zero() && !g.is_one() {
        let mut i: usize = 0;
        while i < v.len()
            invariant
                v@.len() == old(v)@.len(),
                i <= v@.len(),
                all_wf(v@),
                g@ == gg,
                g.wf(),
                gg > 1,
                forall|j: int| 0 <= j < i ==> (#[trigger] v@[j])@ * gg == old(v)@[j]@,
                forall|j: int| i <= j < v@.len() ==> (#[trigger] v@[j]) == old(v)@[j],
                forall|j: int| 0 <= j < old(v)@.len() ==> divides(gg as int, (#[trigger] old(v)@[j])@),
            decreases v@.len() - i,
        {
            let q = v[i].div_exact(&g);
            v.set(i, q);
            i = i + 1;
        }
        proof {
            let so = zvals(old(v)@);
            let t = zvals(v@);
            if forall|i: int| 0 <= i < so.len() ==> #[trigger] so[i] == 0 {
                crate::arith::lemma_gcd_fold_zero(so);
            }
            let k = choose|i: int| 0 <= i < so.len() && so[i] != 0;
            assert(t[k] * gg == so[k]);
            assert(t[k] != 0);
            assert forall|i: int| 0 <= i < so.len() implies #[trigger] t[i] * crate::arith::gcd_fold(0, so) == so[i] by {
                assert(v@[i]@ * gg == old(v)@[i]@);
            }
            crate::arith::lemma_gcd_fold_primitive(0, so, t, 0);
        }
    } else {
        proof {
            assert forall|i: int| 0 <= i < v@.len() implies (#[trigger] v@[i])@ * (if gg == 0 { 1 } else { gg as int }) == old(v)@[i]@ by {
                if gg == 0 {
                } else {
                    assert(gg == 1);
                }
            }
            assert(zvals(v@) =~= zvals(old(v)@));
        }
    }
}


/// Sign of the first non-zero entry (0 for the zero vector).
pub open spec fn lex_sign_of(s: Seq<int>) -> int
    decreases s.len(),
{
    if s.len() == 0 {
        0
    } else if s[0] != 0 {
        sign_of(s[0])
    } else {
        lex_sign_of(s.drop_first())
    }
}

/// The divisor `make_primitive` uses: the gcd, or 1 for the zero vector.
pub open spec fn content(s: Seq<int>) -> int {
    if gcd_seq(s) == 0 {
        1
    } else {
        gcd_seq(s) as int
    }
}

/// Sign of the first non-zero entry (0 for the zero vector).
pub fn lex_sign(v: &[Z]) -> (r: i8)
    requires
        all_wf(v@),
    ensures
        r as int == lex_sign_of(zvals(v@)),
{
    let ghost s = zvals(v@);
    let mut i: usize = 0;
    proof {
        assert(s.skip(0) =~= s);
    }
    while i < v.len()
        invariant
            i <= v@.len(),
            s == zvals(v@),
            all_wf(v@),
            lex_sign_of(s) == lex_sign_of(s.skip(i as int)),
        decreases v@.len() - i,
    {
        let sg = v[i].signum();
        proof {
            assert(s.skip(i as int)[0] == v@[i as int]@);
            assert(s.skip(i as int).drop_first() =~= s.skip(i + 1));
        }
        if sg != 0 {
            return sg;
        }
        i = i + 1;
    }
    proof {
        assert(s.skip(i as int).len() == 0);
    }
    0
}

pub proof fn lemma_lex_sign_range(s: Seq<int>)
    ensures
        -1 <= lex_sign_of(s) <= 1,
    decreases s.len(),
{
    if s.len() > 0 && s[0] == 0 {
        lemma_lex_sign_range(s.drop_first());
    }
}

/// Lexicographic sign is invariant under positive scaling and flips under
/// negative scaling.
pub proof fn lemma_lex_sign_scaled(r: Seq<int>, v: Seq<int>, c: int)
    requires
        r.len() == v.len(),
        c != 0,
        forall|i: int| 0 <= i < r.len() ==> #[trigger] r[i] * c == v[i],
    ensures
        lex_sign_of(v) == (if c > 0 { lex_sign_of(r) } else { -lex_sign_of(r) }),
    decreases r.len(),
{
    if r.len() > 0 {
        assert(r[0] * c == v[0]);
        if r[0] == 0 {
            assert(v[0] == 0);
        } else {
            assert(v[0] != 0) by (nonlinear_arith)
                requires
                    r[0] * c == v[0],
                    r[0] != 0,
                    c != 0,
            ;
            if c > 0 {
                assert(sign_of(v[0]) == sign_of(r[0])) by (nonlinear_arith)
                    requires
                        r[0] * c == v[0],
                        c > 0,
                ;
            } else {
                assert(sign_of(v[0]) == -sign_of(r[0])) by (nonlinear_arith)
                    requires
                        r[0] * c == v[0],
                        c < 0,
                ;
            }
        }
        assert forall|i: int| 0 <= i < r.drop_first().len() implies #[trigger] r.drop_first()[i] * c
            == v.drop_first()[i] by {
            assert(r[i + 1] * c == v[i + 1]);
        }
        lemma_lex_sign_scaled(r.drop_first(), v.drop_first(), c);
    }
}

/// Primitive and lexicographically non-negative multiple of `v`: each
/// result entry times `±content(v)` is the input entry.
pub fn canonical_direction(v: Vec<Z>) -> (r: Vec<Z>)
    requires
        all_wf(v@),
    ensures
        r@.len() == v@.len(),
        all_wf(r@),
        forall|i: int|
            0 <= i < r@.len() ==> (#[trigger] r@[i])@ * (if lex_sign_of(zvals(v@)) < 0 { -content(zvals(v@)) } else { content(zvals(v@)) }) == v@[i]@,
        lex_sign_of(zvals(r@)) >= 0,
        lex_sign_of(zvals(v@)) != 0 ==> lex_sign_of(zvals(r@)) == 1,
        gcd_seq(zvals(v@)) != 0 ==> gcd_seq(zvals(r@)) == 1,
{
    let ghost v0 = v@;
    let ghost c = content(zvals(v0));
    let mut v = v;
    make_primitive(&mut v);
    proof {
        assert forall|i: int| 0 <= i < v@.len() implies #[trigger] zvals(v@)[i] * c == zvals(v0)[i] by {
            assert(v@[i]@ * c == v0[i]@);
        }
        lemma_lex_sign_scaled(zvals(v@), zvals(v0), c);
        lemma_lex_sign_range(zvals(v@));
        lemma_lex_sign_range(zvals(v0));
    }
    if lex_sign(v.as_slice()) < 0 {
        let ghost before = v@;
        let mut i: usize = 0;
        while i < v.len()
            invariant
                i <= v@.len(),
                v@.len() == before.len(),
                all_wf(v@),
                forall|j: int| 0 <= j < i ==> (#[trigger] v@[j])@ == -before[j]@,
                forall|j: int| i <= j < v@.len() ==> (#[trigger] v@[j]) == before[j],
            decreases v@.len() - i,
        {
            let n = neg_z(&v[i]);
            v.set(i, n);
            i = i + 1;
        }
        proof {
            assert forall|j: int| 0 <= j < v@.len() implies #[trigger] zvals(v@)[j] * (-1) == zvals(before)[j] by {
                assert(v@[j]@ == -before[j]@);
            }
            lemma_lex_sign_scaled(zvals(v@), zvals(before), -1);
            crate::arith::lemma_gcd_fold_neg(0, zvals(before), zvals(v@));
            assert forall|i: int| 0 <= i < v@.len() implies (#[trigger] v@[i])@ * (-c) == v0[i]@ by {
                assert(before[i]@ * c == v0[i]@);
                assert(v@[i]@ == -before[i]@);
                assert(v@[i]@ * (-c) == before[i]@ * c) by (nonlinear_arith)
                    requires
                        v@[i]@ == -before[i]@,
                ;
            }
        }
    }
    v
}

/// Entrywise negation.
pub fn negate(v: &[Z]) -> (r: Vec<Z>)
    requires
        all_wf(v@),
    ensures
        r@.len() == v@.len(),
        all_wf(r@),
        forall|i: int| 0 <= i < r@.len() ==> (#[trigger] r@[i])@ == -v@[i]@,
{
    let mut out: Vec<Z> = Vec::new();
    let mut i: usize = 0;
    while i < v.len()
        invariant
            i <= v@.len(),
            out@.len() == i,
            all_wf(v@),
            all_wf(out@),
            forall|j: int| 0 <= j < i ==> (#[trigger] out@[j])@ == -v@[j]@,
        decreases v@.len() - i,
    {
        out.push(neg_z(&v[i]));
        i = i + 1;
    }
    out
}


/// Normalised rational: `den > 0`, `gcd(num, den) = 1`.
#[derive(Debug, PartialEq, Eq, Hash)]
pub struct Q {
    pub num: Z,
    pub den: Z,
}

/// `n1/d1 = n2/d2` (denominators non-zero).
pub open spec fn same_ratio(n1: int, d1: int, n2: int, d2: int) -> bool {
    n1 * d2 == n2 * d1
}

impl Q {
    /// Normal form: both parts well formed, positive denominator, coprime.
    pub open spec fn wf(self) -> bool {
        &&& self.num.wf()
        &&& self.den.wf()
        &&& self.den@ > 0
        &&& gcd(abs(self.num@), self.den@ as nat) == 1
    }

    /// `self` stands for `n/d`.
    pub open spec fn is(self, n: int, d: int) -> bool {
        same_ratio(self.num@, self.den@, n, d)
    }
}

impl Clone for Q {
    fn clone(&self) -> (r: Q)
        ensures
            r.num@ == self.num@,
            r.den@ == self.den@,
            self.wf() ==> r.wf(),
    {
        Q { num: self.num.clone(), den: self.den.clone() }
    }
}

/// `|trunc(a/g)| = |a|/g` for a positive divisor.
proof fn lemma_abs_trunc_div(a: int, g: int)
    requires
        g > 0,
    ensures
        abs(trunc_div(a, g)) == abs(a) / (g as nat),
{
}

/// Two normal forms of the same rational are identical in value.
pub proof fn lemma_q_unique(a: Q, b: Q)
    requires
        a.wf(),
        b.wf(),
        same_ratio(a.num@, a.den@, b.num@, b.den@),
    ensures
        a.num@ == b.num@,
        a.den@ == b.den@,
{
    crate::arith::lemma_reduced_unique(a.num@, a.den@, b.num@, b.den@);
}

impl Q {
    /// The normal form of `num/den`.
    pub fn new(num: Z, den: Z) -> (r: Q)
        requires
            num.wf(),
            den.wf(),
            den@ != 0,
        ensures
            r.wf(),
            r.is(num@, den@),
    {
        let ghost (n0, d0) = (num@, den@);
        let (mut num, mut den) = if den.is_negative() {
            (neg_z(&num), neg_z(&den))
        } else {
            (num, den)
        };
        assert(same_ratio(num@, den@, n0, d0)) by (nonlinear_arith)
            requires
                (num@ == n0 && den@ == d0) || (num@ == -n0 && den@ == -d0),
        ;
        let g = num.gcd(&den);
        let ghost n1 = num@;
        let ghost d1 = den@;
        proof {
            crate::arith::lemma_coprime_after_div(abs(n1), d1 as nat);
            crate::arith::lemma_gcd_divides(abs(n1), d1 as nat);
            crate::arith::lemma_divides_abs(g@, n1);
            lemma_abs_trunc_div(n1, g@);
            lemma_abs_trunc_div(d1, g@);
        }
        if !g.is_one() && !g.is_zero() {
            num = num.div_exact(&g);
            den = den.div_exact(&g);
            proof {
                assert(same_ratio(num@, den@, n1, d1)) by (nonlinear_arith)
                    requires
                        num@ * g@ == n1,
                        den@ * g@ == d1,
                ;
                assert(den@ > 0) by (nonlinear_arith)
                    requires
                        den@ * g@ == d1,
                        d1 > 0,
                        g@ > 0,
                ;
            }
        }
        if num.is_zero() {
            den = Z::one();
            proof {
                crate::arith::lemma_gcd_zero_left(1);
            }
        }
        proof {
            assert(same_ratio(num@, den@, n0, d0)) by (nonlinear_arith)
                requires
                    same_ratio(num@, den@, n1, d1) || num@ == 0,
                    same_ratio(n1, d1, n0, d0),
                    num@ == 0 ==> n1 == 0,
                    d1 > 0,
                    d0 != 0,
            ;
        }
        Q { num, den }
    }

    /// The integer `x` as a rational.
    pub fn from_z(x: Z) -> (r: Q)
        requires
            x.wf(),
        ensures
            r.wf(),
            r.num@ == x@,
            r.den@ == 1,
    {
        proof {
            crate::arith::lemma_bezout_one(abs(x@), 1, 0, 1);
        }
        Q { num: x, den: Z::one() }
    }

    pub fn zero() -> (r: Q)
        ensures
            r.wf(),
            r.num@ == 0,
            r.den@ == 1,
    {
        Q::from_z(Z::zero())
    }

    pub fn one() -> (r: Q)
        ensures
            r.wf(),
            r.num@ == 1,
            r.den@ == 1,
    {
        Q::from_z(Z::one())
    }

    pub fn is_zero(&self) -> (r: bool)
        requires
            self.wf(),
        ensures
            r == (self.num@ == 0),
    {
        self.num.is_zero()
    }

    pub fn is_integer(&self) -> (r: bool)
        requires
            self.wf(),
        ensures
            r == (self.den@ == 1),
    {
        self.den.is_one()
    }

    pub fn signum(&self) -> (r: i8)
        requires
            self.wf(),
        ensures
            r as int == sign_of(self.num@),
    {
        self.num.signum()
    }

    pub fn neg(&self) -> (r: Q)
        requires
            self.wf(),
        ensures
            r.wf(),
            r.num@ == -self.num@,
            r.den@ == self.den@,
    {
        proof {
            assert(abs(-self.num@) == abs(self.num@));
        }
        Q { num: neg_z(&self.num), den: self.den.clone() }
    }

    pub fn add(&self, o: &Q) -> (r: Q)
        requires
            self.wf(),
            o.wf(),
        ensures
            r.wf(),
            r.is(self.num@ * o.den@ + o.num@ * self.den@, self.den@ * o.den@),
    {
        if self.den.eq_z(&o.den) {
            let r = Q::new(add_zz(&self.num, &o.num), self.den.clone());
            proof {
                let d = self.den@;
                assert(same_ratio(r.num@, r.den@, self.num@ * d + o.num@ * d, d * d)) by (nonlinear_arith)
                    requires
                        r.num@ * d == (self.num@ + o.num@) * r.den@,
                ;
            }
            return r;
        }
        proof {
            crate::arith::lemma_mul_nonzero(self.den@, o.den@);
        }
        Q::new(
            add_zz(&mul_zz(&self.num, &o.den), &mul_zz(&o.num, &self.den)),
            mul_zz(&self.den, &o.den),
        )
    }

    pub fn sub(&self, o: &Q) -> (r: Q)
        requires
            self.wf(),
            o.wf(),
        ensures
            r.wf(),
            r.is(self.num@ * o.den@ - o.num@ * self.den@, self.den@ * o.den@),
    {
        let r = self.add(&o.neg());
        proof {
            assert((-o.num@) * self.den@ == -(o.num@ * self.den@)) by (nonlinear_arith);
        }
        r
    }

    pub fn mul(&self, o: &Q) -> (r: Q)
        requires
            self.wf(),
            o.wf(),
        ensures
            r.wf(),
            r.is(self.num@ * o.num@, self.den@ * o.den@),
    {
        proof {
            crate::arith::lemma_mul_nonzero(self.den@, o.den@);
        }
        Q::new(mul_zz(&self.num, &o.num), mul_zz(&self.den, &o.den))
    }

    pub fn div(&self, o: &Q) -> (r: Q)
        requires
            self.wf(),
            o.wf(),
            o.num@ != 0,
        ensures
            r.wf(),
            r.is(self.num@ * o.den@, self.den@ * o.num@),
    {
        proof {
            crate::arith::lemma_mul_nonzero(self.den@, o.num@);
        }
        Q::new(mul_zz(&self.num, &o.den), mul_zz(&self.den, &o.num))
    }

    pub fn recip(&self) -> (r: Q)
        requires
            self.wf(),
            self.num@ != 0,
        ensures
            r.wf(),
            r.is(self.den@, self.num@),
    {
        let r = Q::one().div(self);
        r
    }

    pub fn mul_int(&self, z: &Z) -> (r: Q)
        requires
            self.wf(),
            z.wf(),
        ensures
            r.wf(),
            r.is(self.num@ * z@, self.den@),
    {
        Q::new(mul_zz(&self.num, z), self.den.clone())
    }

    pub fn div_int(&self, z: &Z) -> (r: Q)
        requires
            self.wf(),
            z.wf(),
            z@ != 0,
        ensures
            r.wf(),
            r.is(self.num@, self.den@ * z@),
    {
        proof {
            crate::arith::lemma_mul_nonzero(self.den@, z@);
        }
        Q::new(self.num.clone(), mul_zz(&self.den, z))
    }

    pub fn pow(&self, e: u32) -> (r: Q)
        requires
            self.wf(),
        ensures
            r.wf(),
            r.num@ == pow(self.num@, e as nat),
            r.den@ == pow(self.den@, e as nat),
    {
        let n = self.num.pow(e);
        let d = self.den.pow(e);
        proof {
            crate::arith::lemma_coprime_pow(abs(self.num@), self.den@ as nat, e as nat);
            crate::arith::lemma_abs_pow(self.num@, e as nat);
            vstd::arithmetic::power::lemma_pow_positive(self.den@, e as nat);
        }
        Q { num: n, den: d }
    }

    /// `-1`, `0` or `1` as `self` is below, equal to or above `o`.
    pub fn compare(&self, o: &Q) -> (r: i8)
        requires
            self.wf(),
            o.wf(),
        ensures
            r as int == order_of(self.num@ * o.den@, o.num@ * self.den@),
    {
        mul_zz(&self.num, &o.den).compare(&mul_zz(&o.num, &self.den))
    }

    /// `self ≤ o`.
    pub fn le(&self, o: &Q) -> (r: bool)
        requires
            self.wf(),
            o.wf(),
        ensures
            r == (self.num@ * o.den@ <= o.num@ * self.den@),
    {
        self.compare(o) <= 0
    }

    /// `self < o`.
    pub fn lt(&self, o: &Q) -> (r: bool)
        requires
            self.wf(),
            o.wf(),
        ensures
            r == (self.num@ * o.den@ < o.num@ * self.den@),
    {
        self.compare(o) < 0
    }

    /// Equality of values (for normal forms: equality of parts).
    pub fn eq_q(&self, o: &Q) -> (r: bool)
        requires
            self.wf(),
            o.wf(),
        ensures
            r == same_ratio(self.num@, self.den@, o.num@, o.den@),
            r ==> self.num@ == o.num@ && self.den@ == o.den@,
    {
        let r = self.compare(o) == 0;
        proof {
            if r {
                lemma_q_unique(*self, *o);
            }
        }
        r
    }
}


/// A rational point stored as integer numerators over one positive
/// denominator, normalised so that `gcd(num_1, …, num_d, den) = 1`.
#[derive(Debug, PartialEq, Eq, Hash)]
pub struct Point {
    pub num: Vec<Z>,
    pub den: Z,
}

impl Point {
    pub open spec fn wf(self) -> bool {
        &&& all_wf(self.num@)
        &&& self.den.wf()
        &&& self.den@ > 0
        &&& crate::arith::gcd_fold(self.den@ as nat, zvals(self.num@)) == 1
    }

    /// Coordinate `i` equals `n/d`.
    pub open spec fn coord_is(self, i: int, n: int, d: int) -> bool {
        same_ratio(self.num@[i]@, self.den@, n, d)
    }
}

impl Clone for Point {
    fn clone(&self) -> (r: Point)
        ensures
            zvals(r.num@) == zvals(self.num@),
            r.den@ == self.den@,
            self.wf() ==> r.wf(),
    {
        let num = clone_zs(&self.num);
        Point { num, den: self.den.clone() }
    }
}

/// Entrywise copy of an integer vector.
pub fn clone_zs(v: &Vec<Z>) -> (r: Vec<Z>)
    ensures
        zvals(r@) == zvals(v@),
        all_wf(v@) ==> all_wf(r@),
{
    let mut out: Vec<Z> = Vec::new();
    let mut i: usize = 0;
    while i < v.len()
        invariant
            i <= v@.len(),
            out@.len() == i,
            forall|j: int| 0 <= j < i ==> (#[trigger] out@[j])@ == v@[j]@,
            forall|j: int| 0 <= j < i ==> (#[trigger] v@[j]).wf() ==> out@[j].wf(),
        decreases v@.len() - i,
    {
        out.push(v[i].clone());
        i = i + 1;
    }
    proof {
        assert(zvals(out@) =~= zvals(v@));
    }
    out
}

impl Point {
    /// The normal form of the point `num / den`.
    pub fn new(num: Vec<Z>, den: Z) -> (r: Point)
        requires
            all_wf(num@),
            den.wf(),
            den@ != 0,
        ensures
            r.wf(),
            r.num@.len() == num@.len(),
            forall|i: int| 0 <= i < num@.len() ==> r.coord_is(i, num@[i]@, den@),
    {
        let ghost (n0, d0) = (zvals(num@), den@);
        let mut num = num;
        let mut den = den;
        if den.is_negative() {
            den = neg_z(&den);
            let mut i: usize = 0;
            while i < num.len()
                invariant
                    i <= num@.len(),
                    num@.len() == n0.len(),
                    all_wf(num@),
                    forall|j: int| 0 <= j < i ==> (#[trigger] num@[j])@ == -n0[j],
                    forall|j: int| i <= j < num@.len() ==> (#[trigger] num@[j])@ == n0[j],
                decreases num@.len() - i,
            {
                let x = neg_z(&num[i]);
                num.set(i, x);
                i = i + 1;
            }
        }
        let ghost n1 = zvals(num@);
        let ghost d1 = den@;
        proof {
            assert forall|j: int| 0 <= j < n1.len() implies same_ratio(n1[j], d1, n0[j], d0) by {
                assert(n1[j] == num@[j]@);
                if d0 < 0 {
                    assert(n1[j] * d0 == n0[j] * d1) by (nonlinear_arith)
                        requires
                            n1[j] == -n0[j],
                            d1 == -d0,
                    ;
                }
            }
        }
        let mut g = den.clone();
        let mut i: usize = 0;
        proof {
            if num@.len() == 0 {
                assert(n1.take(0) =~= n1);
            }
        }
        while i < num.len()
            invariant
                i <= num@.len(),
                n1 == zvals(num@),
                all_wf(num@),
                d1 > 0,
                g.wf(),
                g@ == crate::arith::gcd_fold(d1 as nat, n1.take(i as int)) as int,
                i == num@.len() ==> g@ == crate::arith::gcd_fold(d1 as nat, n1) as int,
            ensures
                g.wf(),
                g@ == crate::arith::gcd_fold(d1 as nat, n1) as int,
            decreases num@.len() - i,
        {
            proof {
                assert(n1.take(i + 1).drop_last() =~= n1.take(i as int));
                assert(n1.take(i + 1).last() == num@[i as int]@);
            }
            if g.is_one() {
                proof {
                    crate::arith::lemma_gcd_fold_one(d1 as nat, n1, i as int);
                    assert(n1.take(num@.len() as int) =~= n1);
                }
                break;
            }
            let x = &num[i];
            if !x.is_zero() {
                g = g.gcd(x);
            }
            i = i + 1;
            proof {
                if i == num@.len() {
                    assert(n1.take(i as int) =~= n1);
                }
            }
        }
        proof {
            crate::arith::lemma_gcd_fold_pos(d1 as nat, n1);
            crate::arith::lemma_gcd_fold_divides(d1 as nat, n1);
        }
        let ghost gg = g@;
        if !g.is_one() {
            let mut i: usize = 0;
            while i < num.len()
                invariant
                    i <= num@.len(),
                    num@.len() == n1.len(),
                    all_wf(num@),
                    g.wf(),
                    g@ == gg,
                    gg > 0,
                    forall|j: int| 0 <= j < n1.len() ==> divides(gg, #[trigger] n1[j]),
                    forall|j: int| 0 <= j < i ==> (#[trigger] num@[j])@ * gg == n1[j],
                    forall|j: int| i <= j < num@.len() ==> (#[trigger] num@[j])@ == n1[j],
                decreases num@.len() - i,
            {
                let q = num[i].div_exact(&g);
                num.set(i, q);
                i = i + 1;
            }
            den = den.div_exact(&g);
            proof {
                assert(den@ > 0) by (nonlinear_arith)
                    requires
                        den@ * gg == d1,
                        d1 > 0,
                        gg > 0,
                ;
                let t = zvals(num@);
                assert forall|j: int| 0 <= j < n1.len() implies #[trigger] t[j] * crate::arith::gcd_fold(d1 as nat, n1) == n1[j] by {
                    assert(num@[j]@ * gg == n1[j]);
                }
                assert((den@ as nat) * crate::arith::gcd_fold(d1 as nat, n1) == d1);
                crate::arith::lemma_gcd_fold_primitive(d1 as nat, n1, t, den@ as nat);
                assert forall|j: int| 0 <= j < n0.len() implies same_ratio(num@[j]@, den@, n0[j], d0) by {
                    assert(num@[j]@ * gg == n1[j]);
                    assert(same_ratio(n1[j], d1, n0[j], d0));
                    assert(same_ratio(num@[j]@, den@, n0[j], d0)) by (nonlinear_arith)
                        requires
                            num@[j]@ * gg == n1[j],
                            den@ * gg == d1,
                            n1[j] * d0 == n0[j] * d1,
                            gg > 0,
                    ;
                }
            }
        } else {
            proof {
                assert(zvals(num@) =~= n1);
            }
        }
        Point { num, den }
    }

    pub fn dim(&self) -> (r: usize)
        ensures
            r == self.num@.len(),
    {
        self.num.len()
    }

    /// Coordinate `i` as a rational.
    pub fn coord(&self, i: usize) -> (r: Q)
        requires
            self.wf(),
            i < self.num@.len(),
        ensures
            r.wf(),
            r.is(self.num@[i as int]@, self.den@),
    {
        Q::new(self.num[i].clone(), self.den.clone())
    }

    /// All coordinates as rationals.
    pub fn coords(&self) -> (r: Vec<Q>)
        requires
            self.wf(),
        ensures
            r@.len() == self.num@.len(),
            forall|i: int| 0 <= i < r@.len() ==> (#[trigger] r@[i]).wf() && r@[i].is(self.num@[i]@, self.den@),
    {
        let mut out: Vec<Q> = Vec::new();
        let mut i: usize = 0;
        while i < self.num.len()
            invariant
                self.wf(),
                i <= self.num@.len(),
                out@.len() == i,
                forall|j: int| 0 <= j < i ==> (#[trigger] out@[j]).wf() && out@[j].is(self.num@[j]@, self.den@),
            decreases self.num@.len() - i,
        {
            out.push(self.coord(i));
            i = i + 1;
        }
        out
    }

    /// `<a, p>` as a rational.
    pub fn dot_q(&self, a: &[Z]) -> (r: Q)
        requires
            self.wf(),
            all_wf(a@),
            a@.len() == self.num@.len(),
        ensures
            r.wf(),
            r.is(dot_int(zvals(a@), zvals(self.num@)), self.den@),
    {
        Q::new(dot(a, self.num.as_slice()), self.den.clone())
    }
}


pub fn factorial(n: usize) -> (r: Z)
    ensures
        r@ == crate::arith::factorial(n as nat) as int,
        r.wf(),
{
    let mut r = Z::one();
    let mut i: usize = 1;
    proof {
        assert(crate::arith::factorial(1) == 1 * crate::arith::factorial(0));
    }
    while i < n
        invariant
            1 <= i,
            i <= n || n == 0,
            n == 0 ==> i == 1,
            r@ == crate::arith::factorial(i as nat) as int,
            r.wf(),
        decreases n - i,
    {
        i = i + 1;
        let ghost prev = r@;
        r = mul_zz(&r, &Z::from_usize(i));
        proof {
            assert(crate::arith::factorial(i as nat) == i * crate::arith::factorial((i - 1) as nat));
            vstd::arithmetic::mul::lemma_mul_is_commutative(prev, i as int);
        }
    }
    proof {
        if n == 0 {
            assert(crate::arith::factorial(0) == 1);
            assert(crate::arith::factorial(1) == 1 * crate::arith::factorial(0));
            assert(i == 1);
        }
    }
    r
}

pub fn binomial(n: usize, k: usize) -> (r: Z)
    ensures
        r@ == crate::arith::binom(n as nat, k as nat) as int,
        r.wf(),
{
    if k > n {
        proof {
            crate::arith::lemma_binom_zero(n as nat, k as nat);
        }
        return Z::zero();
    }
    let mut r = Z::one();
    let mut i: usize = 0;
    while i < k
        invariant
            i <= k,
            k <= n,
            r@ == crate::arith::binom(n as nat, i as nat) as int,
            r.wf(),
        decreases k - i,
    {
        proof {
            crate::arith::lemma_binom_step(n as nat, i as nat);
        }
        let t = mul_zz(&r, &Z::from_usize(n - i));
        let d = Z::from_usize(i + 1);
        proof {
            let b1 = crate::arith::binom(n as nat, (i + 1) as nat) as int;
            let b0 = crate::arith::binom(n as nat, i as nat) as int;
            assert(t@ == b0 * (n - i));
            assert(t@ == (i + 1) * b1) by (nonlinear_arith)
                requires
                    t@ == b0 * (n - i),
                    (i + 1) * b1 == (n - i) * b0,
            ;
            assert(t@ == times(d@, b1));
        }
        r = t.div_exact(&d);
        proof {
            let b1 = crate::arith::binom(n as nat, (i + 1) as nat) as int;
            assert(r@ * d@ == t@);
            assert(r@ == b1) by (nonlinear_arith)
                requires
                    r@ * d@ == d@ * b1,
                    d@ > 0,
            ;
        }
        i = i + 1;
    }
    r
}


impl Z {
    /// Canonical form of any `Z` value (a `B` value that fits `i128`
    /// becomes `S`).
    pub fn canon(z: Z) -> (r: Z)
        ensures
            r@ == z@,
            r.wf(),
    {
        match z {
            Z::S(x) => Z::S(x),
            Z::B(b) => Z::from_big(normalize(b.neg, b.mag)),
        }
    }
}

impl Q {
    /// The integer `x` as a rational.
    pub fn integer<T>(x: T) -> (r: Q) where Z: From<T>
        ensures
            r.wf(),
            r.den@ == 1,
            <Z as vstd::std_specs::convert::FromSpec<T>>::obeys_from_spec() ==> r.num@ == <Z as vstd::std_specs::convert::FromSpec<T>>::from_spec(x)@,
    {
        let z: Z = Z::from(x);
        Q::from_z(Z::canon(z))
    }
}

/// A positive common multiple of all denominators: the running least
/// common multiple.
pub fn common_den(cs: &[Q]) -> (r: Z)
    requires
        forall|i: int| 0 <= i < cs@.len() ==> (#[trigger] cs@[i]).wf(),
    ensures
        r.wf(),
        r@ > 0,
        forall|i: int| 0 <= i < cs@.len() ==> divides((#[trigger] cs@[i]).den@, r@),
{
    let mut den = Z::one();
    let mut i: usize = 0;
    while i < cs.len()
        invariant
            i <= cs@.len(),
            forall|j: int| 0 <= j < cs@.len() ==> (#[trigger] cs@[j]).wf(),
            den.wf(),
            den@ > 0,
            forall|j: int| 0 <= j < i ==> divides((#[trigger] cs@[j]).den@, den@),
        decreases cs@.len() - i,
    {
        let c = &cs[i];
        let g = den.gcd(&c.den);
        proof {
            crate::arith::lemma_gcd_pos(abs(den@), abs(c.den@));
            crate::arith::lemma_gcd_divides(abs(den@), abs(c.den@));
            crate::arith::lemma_divides_abs(g@, den@);
            crate::arith::lemma_divides_abs(g@, c.den@);
        }
        let f = c.den.div_exact(&g);
        let ghost old_den = den@;
        den = mul_zz(&den, &f);
        proof {
            assert(f@ * g@ == c.den@);
            let ka = choose|k: int| old_den == times(g@, k);
            assert(f@ > 0) by (nonlinear_arith)
                requires
                    f@ * g@ == c.den@,
                    c.den@ > 0,
                    g@ > 0,
            ;
            assert(den@ > 0) by (nonlinear_arith)
                requires
                    den@ == old_den * f@,
                    old_den > 0,
                    f@ > 0,
            ;
            assert(den@ == times(c.den@, ka)) by (nonlinear_arith)
                requires
                    den@ == old_den * f@,
                    old_den == g@ * ka,
                    f@ * g@ == c.den@,
            ;
            assert forall|j: int| 0 <= j < i implies divides((#[trigger] cs@[j]).den@, den@) by {
                assert(divides(cs@[j].den@, old_den));
                assert(old_den == times(old_den, 1));
                assert(den@ == times(old_den, f@));
                crate::arith::lemma_divides_trans(cs@[j].den@, old_den, den@);
            }
        }
        i = i + 1;
    }
    den
}

/// Numerators of the rationals over the common denominator `den`.
pub fn scale_to(cs: &[Q], den: &Z) -> (r: Vec<Z>)
    requires
        forall|i: int| 0 <= i < cs@.len() ==> (#[trigger] cs@[i]).wf(),
        den.wf(),
        den@ > 0,
        forall|i: int| 0 <= i < cs@.len() ==> divides((#[trigger] cs@[i]).den@, den@),
    ensures
        r@.len() == cs@.len(),
        all_wf(r@),
        forall|i: int| 0 <= i < cs@.len() ==> (#[trigger] r@[i])@ * cs@[i].den@ == cs@[i].num@ * den@,
{
    let mut out: Vec<Z> = Vec::new();
    let mut i: usize = 0;
    while i < cs.len()
        invariant
            i <= cs@.len(),
            out@.len() == i,
            all_wf(out@),
            den.wf(),
            den@ > 0,
            forall|j: int| 0 <= j < cs@.len() ==> (#[trigger] cs@[j]).wf(),
            forall|j: int| 0 <= j < cs@.len() ==> divides((#[trigger] cs@[j]).den@, den@),
            forall|j: int| 0 <= j < i ==> (#[trigger] out@[j])@ * cs@[j].den@ == cs@[j].num@ * den@,
        decreases cs@.len() - i,
    {
        let c = &cs[i];
        let f = den.div_exact(&c.den);
        let x = mul_zz(&c.num, &f);
        proof {
            assert(f@ * c.den@ == den@);
            assert(x@ * c.den@ == c.num@ * den@) by (nonlinear_arith)
                requires
                    x@ == c.num@ * f@,
                    f@ * c.den@ == den@,
            ;
        }
        out.push(x);
        i = i + 1;
    }
    out
}

impl Point {
    /// The point with the given rational coordinates.
    pub fn from_q(cs: &[Q]) -> (r: Point)
        requires
            forall|i: int| 0 <= i < cs@.len() ==> (#[trigger] cs@[i]).wf(),
        ensures
            r.wf(),
            r.num@.len() == cs@.len(),
            forall|i: int| 0 <= i < cs@.len() ==> r.coord_is(i, (#[trigger] cs@[i]).num@, cs@[i].den@),
    {
        let den = common_den(cs);
        let num = scale_to(cs, &den);
        let ghost nv = num@;
        let ghost dv = den@;
        let p = Point::new(num, den);
        proof {
            assert forall|i: int| 0 <= i < cs@.len() implies p.coord_is(i, (#[trigger] cs@[i]).num@, cs@[i].den@) by {
                assert(p.coord_is(i, nv[i]@, dv));
                assert(nv[i]@ * cs@[i].den@ == cs@[i].num@ * dv);
                assert(same_ratio(p.num@[i]@, p.den@, cs@[i].num@, cs@[i].den@)) by (nonlinear_arith)
                    requires
                        p.num@[i]@ * dv == nv[i]@ * p.den@,
                        nv[i]@ * cs@[i].den@ == cs@[i].num@ * dv,
                        dv > 0,
                ;
            }
        }
        p
    }
}

/// Multiplies a rational vector by the positive scale that makes it an
/// integer vector with coprime entries.
pub fn integerize(v: &[Q]) -> (r: Vec<Z>)
    requires
        forall|i: int| 0 <= i < v@.len() ==> (#[trigger] v@[i]).wf(),
    ensures
        r@.len() == v@.len(),
        all_wf(r@),
        forall|i: int, j: int|
            0 <= i < v@.len() && 0 <= j < v@.len() ==> (#[trigger] r@[i])@ * v@[j].num@ * v@[i].den@
                == (#[trigger] r@[j])@ * v@[i].num@ * v@[j].den@,
        forall|i: int| 0 <= i < v@.len() ==> sign_of((#[trigger] r@[i])@) == sign_of(v@[i].num@),
        (exists|i: int| 0 <= i < v@.len() && v@[i].num@ != 0) ==> gcd_seq(zvals(r@)) == 1,
{
    let den = common_den(v);
    let mut out = scale_to(v, &den);
    let ghost w = out@;
    let ghost c = content(zvals(w));
    proof {
        let s = zvals(w);
        if forall|i: int| 0 <= i < s.len() ==> #[trigger] s[i] == 0 {
            crate::arith::lemma_gcd_fold_zero(s);
        }
    }
    make_primitive(&mut out);
    proof {
        assert(c > 0);
        assert forall|i: int| 0 <= i < v@.len() implies sign_of((#[trigger] out@[i])@) == sign_of(v@[i].num@) by {
            assert(out@[i]@ * c == w[i]@);
            assert(w[i]@ * v@[i].den@ == v@[i].num@ * den@);
            assert(sign_of(out@[i]@) == sign_of(v@[i].num@)) by (nonlinear_arith)
                requires
                    out@[i]@ * c == w[i]@,
                    w[i]@ * v@[i].den@ == v@[i].num@ * den@,
                    c > 0,
                    v@[i].den@ > 0,
                    den@ > 0,
            ;
        }
        assert forall|i: int, j: int|
            0 <= i < v@.len() && 0 <= j < v@.len() implies (#[trigger] out@[i])@ * v@[j].num@ * v@[i].den@
                == (#[trigger] out@[j])@ * v@[i].num@ * v@[j].den@ by {
            assert(out@[i]@ * c == w[i]@);
            assert(out@[j]@ * c == w[j]@);
            assert(w[i]@ * v@[i].den@ == v@[i].num@ * den@);
            assert(w[j]@ * v@[j].den@ == v@[j].num@ * den@);
            lemma_cross(out@[i]@, out@[j]@, v@[i].num@, v@[j].num@, v@[i].den@, v@[j].den@, c, den@);
        }
        if exists|i: int| 0 <= i < v@.len() && v@[i].num@ != 0 {
            let k = choose|i: int| 0 <= i < v@.len() && v@[i].num@ != 0;
            let s = zvals(w);
            assert(s[k] * v@[k].den@ == v@[k].num@ * den@);
            crate::arith::lemma_mul_nonzero(v@[k].num@, den@);
            assert(s[k] != 0);
            if gcd_seq(s) == 0 {
                crate::arith::lemma_gcd_fold_divides(0, s);
                let kk = choose|kk: int| s[k] == times(0, kk);
                assert(false);
            }
        }
    }
    out
}

proof fn lemma_cross(ri: int, rj: int, ni: int, nj: int, di: int, dj: int, c: int, l: int)
    requires
        ri * c * di == ni * l,
        rj * c * dj == nj * l,
        c > 0,
        dj > 0,
    ensures
        ri * nj * di == rj * ni * dj,
{
    assert((ri * nj * di) * (c * dj) == (ri * c * di) * (nj * dj)) by (nonlinear_arith);
    assert((rj * ni * dj) * (c * dj) == (rj * c * dj) * (ni * dj)) by (nonlinear_arith);
    assert((ni * l) * (nj * dj) == (nj * l) * (ni * dj)) by (nonlinear_arith);
    vstd::arithmetic::mul::lemma_mul_strictly_positive(c, dj);
    vstd::arithmetic::mul::lemma_mul_equality_converse(c * dj, ri * nj * di, rj * ni * dj);
}


/// The rational literals `Q::parse` accepts, with a numerator and a
/// non-zero denominator of their value: `a/b` (integers), a decimal
/// `i.f` (an optional sign, digits), `m e k` / `m E k` (a literal times
/// `10^k`, `k` an `i32`), or an integer.  Surrounding whitespace is allowed.
pub open spec fn q_literal(s: Seq<char>) -> Option<(int, int)>
    decreases s.len(),
{
    let t = trimmed(s);
    let sl = first_of(t, '/', '/');
    let dt = first_of(t, '.', '.');
    let ee = first_of(t, 'e', 'E');
    if sl < t.len() {
        match (z_literal(trimmed(t.take(sl))), z_literal(trimmed(t.skip(sl + 1)))) {
            (Some(n), Some(d)) => if d == 0 {
                None
            } else {
                Some((n, d))
            },
            _ => None,
        }
    } else if dt < t.len() {
        let ip = t.take(dt);
        let fp = t.skip(dt + 1);
        let neg = ip.len() > 0 && ip[0] == '-';
        let ip2 = strip_signs(ip);
        let ip3 = if ip2.len() == 0 {
            seq!['0']
        } else {
            ip2
        };
        match z_literal(trimmed(ip3 + fp)) {
            Some(n) => Some((if neg { -n } else { n }, pow(10, fp.len()))),
            None => None,
        }
    } else if ee < t.len() && 0 <= ee {
        proof {
            crate::text::lemma_trimmed_len(s);
        }
        let m = t.take(ee);
        let e = t.skip(ee + 1);
        match (q_literal(m), std_int_literal(e)) {
            (Some((n, d)), Some(k)) => if i32::MIN <= k <= i32::MAX {
                if k >= 0 {
                    Some((n * pow(10, k as nat), d))
                } else {
                    Some((n, d * pow(10, (-k) as nat)))
                }
            } else {
                None
            },
            _ => None,
        }
    } else {
        match z_literal(trimmed(t)) {
            Some(n) => Some((n, 1)),
            None => None,
        }
    }
}

/// Decimal notation of a rational in lowest terms: `n` or `n/d`.
pub open spec fn q_repr(n: int, d: int) -> Seq<char> {
    if d == 1 {
        int_repr(n)
    } else {
        int_repr(n) + seq!['/'] + int_repr(d)
    }
}

pub proof fn lemma_q_literal_den(s: Seq<char>)
    ensures
        q_literal(s) matches Some((n, d)) ==> d != 0,
    decreases s.len(),
{
    let t = trimmed(s);
    crate::text::lemma_first_of(t, '/', '/');
    crate::text::lemma_first_of(t, '.', '.');
    crate::text::lemma_first_of(t, 'e', 'E');
    crate::text::lemma_trimmed_len(s);
    let ee = first_of(t, 'e', 'E');
    if first_of(t, '.', '.') < t.len() {
        vstd::arithmetic::power::lemma_pow_positive(10, t.skip(first_of(t, '.', '.') + 1).len());
    }
    if ee < t.len() {
        lemma_q_literal_den(t.take(ee));
        if let Some(k) = std_int_literal(t.skip(ee + 1)) {
            if k < 0 {
                vstd::arithmetic::power::lemma_pow_positive(10, (-k) as nat);
                if let Some((n, d)) = q_literal(t.take(ee)) {
                    crate::arith::lemma_mul_nonzero(d, pow(10, (-k) as nat));
                }
            }
        }
    }
}

/// A `&str` view of characters: parses them as an integer.
fn parse_z_chars(v: &Vec<char>) -> (r: Option<Z>)
    ensures
        r is Some <==> z_literal(trimmed(v@)) is Some,
        r matches Some(z) ==> z_literal(trimmed(v@)) == Some(z@) && z.wf(),
{
    let s = string_from_chars(v.as_slice());
    Z::parse(s.as_str())
}

impl Q {
    /// Parses `a`, `a/b`, a decimal like `-1.25`, or `2e-2`.
    pub fn parse(s: &str) -> (r: Option<Q>)
        requires
            s@.len() <= u32::MAX,
        ensures
            r is Some <==> q_literal(s@) is Some,
            r matches Some(q) ==> q.wf() && (q_literal(s@) matches Some((n, d)) && q.is(n, d)),
        decreases s@.len(),
    {
        proof {
            lemma_q_literal_den(s@);
            crate::text::lemma_trimmed_len(s@);
        }
        let t = str_trim(s);
        let v = str_chars(t);
        let ghost tv = v@;
        proof {
            crate::text::lemma_first_of(tv, '/', '/');
            crate::text::lemma_first_of(tv, '.', '.');
            crate::text::lemma_first_of(tv, 'e', 'E');
        }
        let sl = find_first(&v, '/', '/');
        if sl < v.len() {
            let a = parse_z_chars(&sub_chars(&v, 0, sl));
            let b = parse_z_chars(&sub_chars(&v, sl + 1, v.len()));
            proof {
                assert(tv.subrange(0, sl as int) =~= tv.take(sl as int));
                assert(tv.subrange(sl + 1, tv.len() as int) =~= tv.skip(sl + 1));
            }
            return match (a, b) {
                (Some(n), Some(d)) => {
                    if d.is_zero() {
                        None
                    } else {
                        Some(Q::new(n, d))
                    }
                },
                _ => None,
            };
        }
        let dt = find_first(&v, '.', '.');
        if dt < v.len() {
            let ip = sub_chars(&v, 0, dt);
            let fp = sub_chars(&v, dt + 1, v.len());
            proof {
                assert(ip@ =~= tv.take(dt as int));
                assert(fp@ =~= tv.skip(dt + 1));
            }
            let neg = ip.len() > 0 && ip[0] == '-';
            let mut ip2 = strip_sign_chars(&ip);
            if ip2.len() == 0 {
                ip2.push('0');
                proof {
                    assert(ip2@ =~= seq!['0']);
                }
            }
            let mut digits = ip2;
            let mut k: usize = 0;
            while k < fp.len()
                invariant
                    k <= fp@.len(),
                    digits@ == (if strip_signs(ip@).len() == 0 { seq!['0'] } else { strip_signs(ip@) }) + fp@.take(k as int),
                decreases fp@.len() - k,
            {
                digits.push(fp[k]);
                k = k + 1;
                proof {
                    assert(digits@ =~= (if strip_signs(ip@).len() == 0 { seq!['0'] } else { strip_signs(ip@) }) + fp@.take(k as int));
                }
            }
            proof {
                assert(fp@.take(fp@.len() as int) =~= fp@);
            }
            let n = match parse_z_chars(&digits) {
                Some(n) => n,
                None => return None,
            };
            let flen = fp.len() as u32;
            let d = Z::from_i64(10).pow(flen);
            proof {
                vstd::arithmetic::power::lemma_pow_positive(10, flen as nat);
            }
            let q = Q::new(n, d);
            proof {
                assert(flen as nat == fp@.len());
                if neg {
                    assert(same_ratio(-q.num@, q.den@, -n@, d@)) by (nonlinear_arith)
                        requires
                            same_ratio(q.num@, q.den@, n@, d@),
                    ;
                }
            }
            return Some(if neg { q.neg() } else { q });
        }
        let ee = find_first(&v, 'e', 'E');
        if ee < v.len() {
            let m = string_from_chars(sub_chars(&v, 0, ee).as_slice());
            let e = string_from_chars(sub_chars(&v, ee + 1, v.len()).as_slice());
            proof {
                assert(m@ =~= tv.take(ee as int));
                assert(e@ =~= tv.skip(ee + 1));
            }
            let base = match Q::parse(m.as_str()) {
                Some(b) => b,
                None => return None,
            };
            let k = match parse_i32(e.as_str()) {
                Some(k) => k,
                None => return None,
            };
            let ku: u32 = if k >= 0 { k as u32 } else { (-(k as i64)) as u32 };
            let p = Q::from_z(Z::from_i64(10)).pow(ku);
            proof {
                vstd::arithmetic::power::lemma_pow_positive(10, ku as nat);
                lemma_pow1(ku as nat);
            }
            let ghost (bn, bd) = q_literal(m@)->0;
            if k >= 0 {
                let r = base.mul(&p);
                proof {
                    assert(base.den@ * p.den@ == base.den@);
                    lemma_ratio_scale(r.num@, r.den@, base.num@, base.den@, bn, bd, pow(10, ku as nat), 1);
                }
                return Some(r);
            } else {
                let r = base.div(&p);
                proof {
                    assert(base.num@ * p.den@ == base.num@);
                    lemma_ratio_scale(r.num@, r.den@, base.num@, base.den@, bn, bd, 1, pow(10, ku as nat));
                }
                return Some(r);
            }
        }
        match Z::parse(t) {
            Some(z) => Some(Q::from_z(z)),
            None => None,
        }
    }

    /// `n` or `n/d` in decimal.
    pub fn to_string(&self) -> (r: String)
        requires
            self.wf(),
        ensures
            r@ == q_repr(self.num@, self.den@),
    {
        let ns = self.num.to_string();
        if self.den.is_one() {
            return ns;
        }
        let ds = self.den.to_string();
        let mut v = str_chars(ns.as_str());
        v.push('/');
        let dv = str_chars(ds.as_str());
        let mut i: usize = 0;
        let ghost base = v@;
        while i < dv.len()
            invariant
                i <= dv@.len(),
                v@ == base + dv@.take(i as int),
            decreases dv@.len() - i,
        {
            v.push(dv[i]);
            i = i + 1;
            proof {
                assert(v@ =~= base + dv@.take(i as int));
            }
        }
        proof {
            assert(dv@.take(dv@.len() as int) =~= dv@);
        }
        string_from_chars(v.as_slice())
    }
}

/// `r = (x·f)/(y·g)` and `x/y = n/d` give `r = (n·f)/(d·g)`.
proof fn lemma_ratio_scale(rn: int, rd: int, x: int, y: int, n: int, d: int, f: int, g: int)
    requires
        same_ratio(rn, rd, x * f, y * g),
        same_ratio(x, y, n, d),
        y > 0,
    ensures
        same_ratio(rn, rd, n * f, d * g),
{
    // rn·(y·g) = (x·f)·rd  and  x·d = n·y
    assert((rn * (d * g)) * y == (rn * (y * g)) * d) by (nonlinear_arith);
    assert((x * f * rd) * d == (x * d) * (f * rd)) by (nonlinear_arith);
    assert((n * y) * (f * rd) == ((n * f) * rd) * y) by (nonlinear_arith);
    assert((rn * (d * g)) * y == ((n * f) * rd) * y);
    assert(rn * (d * g) == (n * f) * rd) by (nonlinear_arith)
        requires
            (rn * (d * g)) * y == ((n * f) * rd) * y,
            y > 0,
    ;
}

proof fn lemma_pow1(e: nat)
    ensures
        pow(1, e) == 1,
    decreases e,
{
    reveal(pow);
    if e > 0 {
        lemma_pow1((e - 1) as nat);
    }
}

/// `q_1, q_2, …` for reduced fractions given as `(num, den)` pairs.
pub open spec fn join_q(ps: Seq<(int, int)>) -> Seq<char>
    decreases ps.len(),
{
    if ps.len() == 0 {
        Seq::empty()
    } else if ps.len() == 1 {
        q_repr(ps[0].0, ps[0].1)
    } else {
        join_q(ps.drop_last()) + seq![',', ' '] + q_repr(ps.last().0, ps.last().1)
    }
}

/// `(q_1, …, q_d)`.
pub open spec fn tuple_repr(ps: Seq<(int, int)>) -> Seq<char> {
    seq!['('] + join_q(ps) + seq![')']
}

/// The reduced fraction `n/d` as `(num, den)` for `d > 0`.
pub open spec fn reduced(n: int, d: int) -> (int, int) {
    let g = gcd(abs(n), d as nat) as int;
    (trunc_div(n, g), d / g)
}

/// The normal form of `n/d` has the parts given by `reduced`.
proof fn lemma_reduced(q: Q, n: int, d: int)
    requires
        q.wf(),
        d > 0,
        q.is(n, d),
    ensures
        (q.num@, q.den@) == reduced(n, d),
{
    let g = gcd(abs(n), d as nat) as int;
    crate::arith::lemma_gcd_pos(abs(n), d as nat);
    crate::arith::lemma_gcd_divides(abs(n), d as nat);
    crate::arith::lemma_divides_abs(g, n);
    crate::arith::lemma_coprime_after_div(abs(n), d as nat);
    lemma_trunc_rem(n, g);
    lemma_divides_iff_mod(g, n);
    let (rn, rd) = reduced(n, d);
    assert(rn * g == n);
    assert(rd * g == d) by {
        lemma_trunc_rem(d, g);
        lemma_divides_iff_mod(g, d);
        crate::arith::lemma_divides_abs(g, d);
        assert(trunc_div(d, g) == d / g);
    }
    assert(rd > 0) by (nonlinear_arith)
        requires
            rd * g == d,
            d > 0,
            g > 0,
    ;
    assert(abs(rn) == abs(n) / (g as nat)) by {
        assert(abs(trunc_div(n, g)) == abs(n) / (g as nat));
    }
    assert(gcd(abs(rn), rd as nat) == 1);
    assert(same_ratio(q.num@, q.den@, rn, rd)) by (nonlinear_arith)
        requires
            q.num@ * d == n * q.den@,
            rn * g == n,
            rd * g == d,
            g > 0,
    ;
    crate::arith::lemma_reduced_unique(q.num@, q.den@, rn, rd);
}

impl Point {
    /// `(x_1, …, x_d)` with every coordinate as a reduced fraction.
    pub fn to_string(&self) -> (r: String)
        requires
            self.wf(),
        ensures
            r@ == tuple_repr(Seq::new(self.num@.len(), |i: int| reduced(self.num@[i]@, self.den@))),
    {
        let cs = self.coords();
        let ghost ps = Seq::new(self.num@.len(), |i: int| reduced(self.num@[i]@, self.den@));
        let mut v: Vec<char> = Vec::new();
        v.push('(');
        let mut i: usize = 0;
        while i < cs.len()
            invariant
                self.wf(),
                cs@.len() == self.num@.len(),
                ps == Seq::new(self.num@.len(), |i: int| reduced(self.num@[i]@, self.den@)),
                forall|k: int| 0 <= k < cs@.len() ==> (#[trigger] cs@[k]).wf() && cs@[k].is(self.num@[k]@, self.den@),
                i <= cs@.len(),
                v@ == seq!['('] + join_q(ps.take(i as int)),
            decreases cs@.len() - i,
        {
            let t = cs[i].to_string();
            let tv = str_chars(t.as_str());
            let ghost base = v@;
            if i > 0 {
                v.push(',');
                v.push(' ');
            }
            let ghost mid = v@;
            let mut k: usize = 0;
            while k < tv.len()
                invariant
                    k <= tv@.len(),
                    v@ == mid + tv@.take(k as int),
                decreases tv@.len() - k,
            {
                v.push(tv[k]);
                k = k + 1;
                proof {
                    assert(v@ =~= mid + tv@.take(k as int));
                }
            }
            proof {
                assert(tv@.take(tv@.len() as int) =~= tv@);
                lemma_reduced(cs@[i as int], self.num@[i as int]@, self.den@);
                assert(ps[i as int] == (cs@[i as int].num@, cs@[i as int].den@));
                let pt = ps.take(i + 1);
                assert(pt.drop_last() =~= ps.take(i as int));
                assert(pt.last() == ps[i as int]);
                if i == 0 {
                    assert(pt.len() == 1);
                    assert(v@ =~= seq!['('] + join_q(pt));
                } else {
                    assert(v@ =~= seq!['('] + join_q(pt));
                }
            }
            i = i + 1;
        }
        v.push(')');
        proof {
            assert(ps.take(i as int) =~= ps);
            assert(v@ =~= tuple_repr(ps));
        }
        string_from_chars(v.as_slice())
    }
}

} // verus!
