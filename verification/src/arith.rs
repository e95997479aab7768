//! Integer facts used by the exact arithmetic: Euclid's gcd, Bezout
//! coefficients, and the uniqueness of reduced fractions.
use vstd::arithmetic::div_mod::*;
use vstd::arithmetic::mul::*;
use vstd::prelude::*;

verus! {

/// Greatest common divisor of two naturals (`gcd(0, 0) = 0`).
pub open spec fn gcd(a: nat, b: nat) -> nat
    decreases b,
{
    if b == 0 {
        a
    } else {
        gcd(b, a % b)
    }
}

/// Absolute value of an integer.
pub open spec fn abs(x: int) -> nat {
    if x < 0 {
        (-x) as nat
    } else {
        x as nat
    }
}

/// The product `d·k`, named so that it can serve as a trigger.
pub open spec fn times(d: int, k: int) -> int {
    d * k
}

/// `d` divides `a`.
pub open spec fn divides(d: int, a: int) -> bool {
    exists|k: int| a == #[trigger] times(d, k)
}

/// Bezout coefficients `(x, y)` with `a·x + b·y = gcd(a, b)`.
pub open spec fn bezout(a: nat, b: nat) -> (int, int)
    decreases b,
{
    if b == 0 {
        (1, 0)
    } else {
        let r = bezout(b, a % b);
        (r.1, r.0 - (a / b) as int * r.1)
    }
}

pub proof fn lemma_bezout(a: nat, b: nat)
    ensures
        a * bezout(a, b).0 + b * bezout(a, b).1 == gcd(a, b) as int,
    decreases b,
{
    if b != 0 {
        lemma_bezout(b, a % b);
        let r = bezout(b, a % b);
        let q = (a / b) as int;
        lemma_fundamental_div_mod(a as int, b as int);
        assert(a as int == b * q + (a % b) as int);
        assert(a * r.1 + b * (r.0 - q * r.1) == b * r.0 + (a - b * q) * r.1) by (nonlinear_arith);
    }
}

/// `gcd(a, b)` divides both arguments.
pub proof fn lemma_gcd_divides(a: nat, b: nat)
    ensures
        divides(gcd(a, b) as int, a as int),
        divides(gcd(a, b) as int, b as int),
    decreases b,
{
    let g = gcd(a, b) as int;
    if b == 0 {
        assert(a as int == times(g, 1));
        assert(b as int == times(g, 0));
    } else {
        lemma_gcd_divides(b, a % b);
        let k1 = choose|k: int| b as int == times(g, k);
        let k2 = choose|k: int| (a % b) as int == times(g, k);
        let q = (a / b) as int;
        lemma_fundamental_div_mod(a as int, b as int);
        assert(a as int == g * (q * k1 + k2)) by (nonlinear_arith)
            requires
                a as int == b * q + (a % b) as int,
                b as int == g * k1,
                (a % b) as int == g * k2,
        ;
        assert(a as int == times(g, q * k1 + k2));
    }
}

/// The gcd is positive unless both arguments are zero.
pub proof fn lemma_gcd_pos(a: nat, b: nat)
    requires
        a > 0 || b > 0,
    ensures
        gcd(a, b) > 0,
    decreases b,
{
    if b != 0 {
        lemma_gcd_pos(b, a % b);
    }
}

/// `gcd(0, b) = b`.
pub proof fn lemma_gcd_zero_left(b: nat)
    ensures
        gcd(0, b) == b,
{
    if b != 0 {
        lemma_small_mod(0, b);
        assert(gcd(b, 0) == b);
    }
}

/// Every common divisor divides the gcd.
pub proof fn lemma_common_divisor(a: nat, b: nat, d: int)
    requires
        divides(d, a as int),
        divides(d, b as int),
    ensures
        divides(d, gcd(a, b) as int),
{
    lemma_bezout(a, b);
    let (x, y) = bezout(a, b);
    let ka = choose|k: int| a as int == times(d, k);
    let kb = choose|k: int| b as int == times(d, k);
    assert(gcd(a, b) as int == d * (ka * x + kb * y)) by (nonlinear_arith)
        requires
            a * x + b * y == gcd(a, b) as int,
            a as int == d * ka,
            b as int == d * kb,
    ;
    assert(gcd(a, b) as int == times(d, ka * x + kb * y));
}

/// A positive divisor of a positive number is at most that number.
pub proof fn lemma_divisor_le(d: int, a: int)
    requires
        d > 0,
        a > 0,
        divides(d, a),
    ensures
        d <= a,
{
    let k = choose|k: int| a == times(d, k);
    assert(d <= a) by (nonlinear_arith)
        requires
            d > 0,
            a > 0,
            a == d * k,
    ;
}

/// Exact quotient of a multiple.
pub proof fn lemma_div_of_multiple(a: int, g: int)
    requires
        g > 0,
        divides(g, a),
    ensures
        a == g * (a / g),
        a % g == 0,
{
    let k = choose|k: int| a == times(g, k);
    lemma_mul_is_commutative(g, k);
    lemma_mod_multiples_basic(k, g);
    lemma_fundamental_div_mod(a, g);
}

/// Dividing both arguments by their gcd leaves coprime numbers.
pub proof fn lemma_coprime_after_div(a: nat, b: nat)
    requires
        a > 0 || b > 0,
    ensures
        gcd(a, b) > 0,
        gcd(a / gcd(a, b), b / gcd(a, b)) == 1,
{
    let g = gcd(a, b);
    lemma_gcd_pos(a, b);
    lemma_gcd_divides(a, b);
    lemma_div_of_multiple(a as int, g as int);
    lemma_div_of_multiple(b as int, g as int);
    let a2 = a / g;
    let b2 = b / g;
    lemma_bezout(a, b);
    let (x, y) = bezout(a, b);
    assert(a2 * x + b2 * y == 1) by (nonlinear_arith)
        requires
            a * x + b * y == g as int,
            a as int == g * a2,
            b as int == g * b2,
            g > 0,
    ;
    assert(a2 > 0 || b2 > 0) by (nonlinear_arith)
        requires
            a as int == g * a2,
            b as int == g * b2,
            a > 0 || b > 0,
    ;
    let g2 = gcd(a2, b2);
    lemma_gcd_pos(a2, b2);
    lemma_gcd_divides(a2, b2);
    let p = choose|k: int| a2 as int == times(g2 as int, k);
    let q = choose|k: int| b2 as int == times(g2 as int, k);
    assert(g2 == 1) by (nonlinear_arith)
        requires
            a2 * x + b2 * y == 1,
            a2 as int == g2 * p,
            b2 as int == g2 * q,
            g2 > 0,
    {
        assert(g2 * (p * x + q * y) == 1);
    }
}

/// Reduced fractions with positive denominators are equal iff they have
/// the same cross products.
pub proof fn lemma_reduced_unique(a: int, b: int, c: int, d: int)
    requires
        b > 0,
        d > 0,
        gcd(abs(a), b as nat) == 1,
        gcd(abs(c), d as nat) == 1,
        a * d == c * b,
    ensures
        a == c,
        b == d,
{
    lemma_bezout(abs(a), b as nat);
    let (x, y) = bezout(abs(a), b as nat);
    lemma_bezout(abs(c), d as nat);
    let (u, v) = bezout(abs(c), d as nat);
    assert(abs(a) * d == abs(c) * b) by (nonlinear_arith)
        requires
            a * d == c * b,
            b > 0,
            d > 0,
    ;
    // d = b·(|c|x + d y)  and  b = d·(|a|u + b v)
    assert(d == b * (abs(c) * x + d * y)) by (nonlinear_arith)
        requires
            abs(a) * x + b * y == 1,
            abs(a) * d == abs(c) * b,
    ;
    assert(b == d * (abs(a) * u + b * v)) by (nonlinear_arith)
        requires
            abs(c) * u + d * v == 1,
            abs(a) * d == abs(c) * b,
    ;
    assert(d == times(b, abs(c) * x + d * y));
    assert(b == times(d, abs(a) * u + b * v));
    lemma_divisor_le(b, d);
    lemma_divisor_le(d, b);
    assert(a == c) by (nonlinear_arith)
        requires
            a * d == c * b,
            b == d,
            b > 0,
    ;
}

} // verus!

verus! {

/// Quotient rounded toward zero, as Rust's `/` on integers.
pub open spec fn trunc_div(a: int, b: int) -> int {
    let q = (abs(a) / abs(b)) as int;
    if (a < 0) != (b < 0) {
        -q
    } else {
        q
    }
}

/// Remainder of the truncating division: `a − b·trunc_div(a, b)`.
pub open spec fn trunc_rem(a: int, b: int) -> int {
    a - b * trunc_div(a, b)
}

/// The truncating remainder is `±(|a| mod |b|)` with the sign of `a`.
pub proof fn lemma_trunc_rem(a: int, b: int)
    requires
        b != 0,
    ensures
        trunc_rem(a, b) == (if a < 0 { -((abs(a) % abs(b)) as int) } else { (abs(a) % abs(b)) as int }),
        abs(a) % abs(b) == 0 ==> trunc_div(a, b) * b == a,
{
    let q = (abs(a) / abs(b)) as int;
    let r = (abs(a) % abs(b)) as int;
    lemma_fundamental_div_mod(abs(a) as int, abs(b) as int);
    assert(abs(a) as int == abs(b) * q + r);
    if a < 0 {
        if b < 0 {
            assert(trunc_rem(a, b) == a - b * q);
            assert(a - b * q == -r) by (nonlinear_arith)
                requires
                    -a == -b * q + r,
            ;
        } else {
            assert(trunc_rem(a, b) == a - b * (-q));
            assert(a - b * (-q) == -r) by (nonlinear_arith)
                requires
                    -a == b * q + r,
            ;
        }
    } else {
        if b < 0 {
            assert(trunc_rem(a, b) == a - b * (-q));
            assert(a - b * (-q) == r) by (nonlinear_arith)
                requires
                    a == -b * q + r,
            ;
        } else {
            assert(trunc_rem(a, b) == a - b * q);
        }
    }
    assert(trunc_div(a, b) * b == b * trunc_div(a, b)) by (nonlinear_arith);
}

/// Divisibility in terms of the remainder of absolute values.
pub proof fn lemma_divides_iff_mod(d: int, a: int)
    requires
        d != 0,
    ensures
        divides(d, a) <==> abs(a) % abs(d) == 0,
{
    lemma_trunc_rem(a, d);
    if abs(a) % abs(d) == 0 {
        assert(a == times(d, trunc_div(a, d))) by (nonlinear_arith)
            requires
                trunc_div(a, d) * d == a,
        ;
    }
    if divides(d, a) {
        let k = choose|k: int| a == times(d, k);
        let q = (abs(a) / abs(d)) as int;
        let r = (abs(a) % abs(d)) as int;
        lemma_fundamental_div_mod(abs(a) as int, abs(d) as int);
        assert(abs(a) == abs(d) * abs(k)) by (nonlinear_arith)
            requires
                a == d * k,
        ;
        lemma_mod_multiples_basic(abs(k) as int, abs(d) as int);
        assert(abs(d) * abs(k) == abs(k) * abs(d)) by (nonlinear_arith);
    }
}

} // verus!

verus! {

pub proof fn lemma_divides_trans(a: int, b: int, c: int)
    requires
        divides(a, b),
        divides(b, c),
    ensures
        divides(a, c),
{
    let k1 = choose|k: int| b == times(a, k);
    let k2 = choose|k: int| c == times(b, k);
    assert(c == a * (k1 * k2)) by (nonlinear_arith)
        requires
            b == a * k1,
            c == b * k2,
    ;
    assert(c == times(a, k1 * k2));
}

/// Divisibility does not see the sign.
pub proof fn lemma_divides_abs(d: int, a: int)
    ensures
        divides(d, abs(a) as int) <==> divides(d, a),
{
    if divides(d, abs(a) as int) {
        let k = choose|k: int| abs(a) as int == times(d, k);
        if a < 0 {
            assert(d * (-k) == -(d * k)) by (nonlinear_arith);
            assert(a == times(d, -k));
        } else {
            assert(a == times(d, k));
        }
    }
    if divides(d, a) {
        let k = choose|k: int| a == times(d, k);
        if a < 0 {
            assert(d * (-k) == -(d * k)) by (nonlinear_arith);
            assert(abs(a) as int == times(d, -k));
        } else {
            assert(abs(a) as int == times(d, k));
        }
    }
}

} // verus!

verus! {

/// An integer combination equal to 1 makes the pair coprime.
pub proof fn lemma_bezout_one(a: nat, b: nat, x: int, y: int)
    requires
        a * x + b * y == 1,
    ensures
        gcd(a, b) == 1,
{
    let g = gcd(a, b);
    lemma_gcd_divides(a, b);
    let p = choose|k: int| a as int == times(g as int, k);
    let q = choose|k: int| b as int == times(g as int, k);
    assert(g * (p * x + q * y) == 1) by (nonlinear_arith)
        requires
            a * x + b * y == 1,
            a as int == g * p,
            b as int == g * q,
    ;
    assert(g == 1) by (nonlinear_arith)
        requires
            g * (p * x + q * y) == 1,
            g >= 0,
    ;
}

/// Coprimality is symmetric.
pub proof fn lemma_coprime_sym(a: nat, b: nat)
    requires
        gcd(a, b) == 1,
    ensures
        gcd(b, a) == 1,
{
    lemma_bezout(a, b);
    let (x, y) = bezout(a, b);
    lemma_bezout_one(b, a, y, x);
}

/// A number coprime to two numbers is coprime to their product.
pub proof fn lemma_coprime_mul(a: nat, b: nat, c: nat)
    requires
        gcd(a, b) == 1,
        gcd(a, c) == 1,
    ensures
        gcd(a, b * c) == 1,
{
    lemma_bezout(a, b);
    lemma_bezout(a, c);
    let (x1, y1) = bezout(a, b);
    let (x2, y2) = bezout(a, c);
    let p = a * x1 + b * y1;
    let q = a * x2 + c * y2;
    assert(p == 1 && q == 1);
    assert(p * q == 1) by (nonlinear_arith)
        requires
            p == 1,
            q == 1,
    ;
    assert(p * q == a * (x1 * a * x2 + x1 * c * y2 + b * y1 * x2) + (b * c) * (y1 * y2)) by {
        lemma_mul_is_distributive_add(p, a * x2, c * y2);
        lemma_mul_is_distributive_add_other_way(a * x2, a * x1, b * y1);
        lemma_mul_is_distributive_add_other_way(c * y2, a * x1, b * y1);
        assert((a * x1) * (a * x2) == a * (x1 * a * x2)) by (nonlinear_arith);
        assert((b * y1) * (a * x2) == a * (b * y1 * x2)) by (nonlinear_arith);
        assert((a * x1) * (c * y2) == a * (x1 * c * y2)) by (nonlinear_arith);
        assert((b * y1) * (c * y2) == (b * c) * (y1 * y2)) by (nonlinear_arith);
        lemma_mul_is_distributive_add(a as int, x1 * a * x2, x1 * c * y2);
        lemma_mul_is_distributive_add(a as int, x1 * a * x2 + x1 * c * y2, b * y1 * x2);
    }
    lemma_bezout_one(a, b * c, x1 * a * x2 + x1 * c * y2 + b * y1 * x2, y1 * y2);
}

} // verus!

verus! {

/// Powers of coprime numbers are coprime.
pub proof fn lemma_coprime_pow(a: nat, b: nat, e: nat)
    requires
        gcd(a, b) == 1,
    ensures
        gcd(vstd::arithmetic::power::pow(a as int, e) as nat, vstd::arithmetic::power::pow(
            b as int,
            e,
        ) as nat) == 1,
{
    lemma_coprime_pow_right(a, b, e);
    let pb = vstd::arithmetic::power::pow(b as int, e) as nat;
    lemma_coprime_sym(a, pb);
    lemma_coprime_pow_right(pb, a, e);
    lemma_coprime_sym(pb, vstd::arithmetic::power::pow(a as int, e) as nat);
}

/// `gcd(a, b) = 1` gives `gcd(a, b^e) = 1`.
pub proof fn lemma_coprime_pow_right(a: nat, b: nat, e: nat)
    requires
        gcd(a, b) == 1,
    ensures
        vstd::arithmetic::power::pow(b as int, e) >= 0,
        gcd(a, vstd::arithmetic::power::pow(b as int, e) as nat) == 1,
    decreases e,
{
    reveal(vstd::arithmetic::power::pow);
    if e == 0 {
        lemma_bezout_one(a, 1, 0, 1);
    } else {
        lemma_coprime_pow_right(a, b, (e - 1) as nat);
        let pe = vstd::arithmetic::power::pow(b as int, (e - 1) as nat);
        assert(b * pe >= 0) by (nonlinear_arith)
            requires
                pe >= 0,
        ;
        lemma_coprime_mul(a, b, pe as nat);
    }
}

/// `|x^e| = |x|^e`.
pub proof fn lemma_abs_pow(x: int, e: nat)
    ensures
        abs(vstd::arithmetic::power::pow(x, e)) as int == vstd::arithmetic::power::pow(
            abs(x) as int,
            e,
        ),
    decreases e,
{
    reveal(vstd::arithmetic::power::pow);
    if e > 0 {
        lemma_abs_pow(x, (e - 1) as nat);
        let p = vstd::arithmetic::power::pow(x, (e - 1) as nat);
        assert(abs(x * p) == abs(x) * abs(p)) by (nonlinear_arith);
    }
}

} // verus!

verus! {

pub proof fn lemma_mul_nonzero(a: int, b: int)
    ensures
        (a != 0 && b != 0) ==> a * b != 0,
        (a > 0 && b > 0) ==> a * b > 0,
        (a > 0 && b < 0) ==> a * b < 0,
{
    if a != 0 && b != 0 {
        lemma_mul_nonzero_inner(a, b);
    }
    if a > 0 && b > 0 {
        lemma_mul_strictly_positive(a, b);
    }
    if a > 0 && b < 0 {
        lemma_mul_strictly_positive(a, -b);
        assert(a * (-b) == -(a * b)) by (nonlinear_arith);
    }
}

proof fn lemma_mul_nonzero_inner(a: int, b: int)
    requires
        a != 0,
        b != 0,
    ensures
        a * b != 0,
{
    assert(a * b != 0) by (nonlinear_arith)
        requires
            a != 0,
            b != 0,
    ;
}

} // verus!

verus! {

/// Running gcd: `init`, then every entry's absolute value folded in.
pub open spec fn gcd_fold(init: nat, s: Seq<int>) -> nat
    decreases s.len(),
{
    if s.len() == 0 {
        init
    } else {
        gcd(gcd_fold(init, s.drop_last()), abs(s.last()))
    }
}

/// The running gcd divides the start value and every entry.
pub proof fn lemma_gcd_fold_divides(init: nat, s: Seq<int>)
    ensures
        divides(gcd_fold(init, s) as int, init as int),
        forall|i: int| 0 <= i < s.len() ==> divides(gcd_fold(init, s) as int, #[trigger] s[i]),
    decreases s.len(),
{
    if s.len() == 0 {
        assert(init as int == times(init as int, 1));
    } else {
        let p = s.drop_last();
        let g = gcd_fold(init, s) as int;
        let gp = gcd_fold(init, p) as int;
        lemma_gcd_fold_divides(init, p);
        lemma_gcd_divides(gcd_fold(init, p), abs(s.last()));
        lemma_divides_trans(g, gp, init as int);
        lemma_divides_abs(g, s.last());
        assert forall|i: int| 0 <= i < s.len() implies divides(g, #[trigger] s[i]) by {
            if i < s.len() - 1 {
                assert(s[i] == p[i]);
                lemma_divides_trans(g, gp, p[i]);
            }
        }
    }
}

/// A common divisor of the start value and all entries divides the running gcd.
pub proof fn lemma_gcd_fold_greatest(init: nat, s: Seq<int>, d: int)
    requires
        divides(d, init as int),
        forall|i: int| 0 <= i < s.len() ==> divides(d, #[trigger] s[i]),
    ensures
        divides(d, gcd_fold(init, s) as int),
    decreases s.len(),
{
    if s.len() > 0 {
        let p = s.drop_last();
        assert forall|i: int| 0 <= i < p.len() implies divides(d, #[trigger] p[i]) by {
            assert(p[i] == s[i]);
        }
        lemma_gcd_fold_greatest(init, p, d);
        assert(divides(d, s[s.len() - 1]));
        lemma_divides_abs(d, s.last());
        lemma_common_divisor(gcd_fold(init, p), abs(s.last()), d);
    }
}

/// Dividing the start value and every entry by the running gcd leaves a
/// running gcd of 1.
pub proof fn lemma_gcd_fold_primitive(init: nat, s: Seq<int>, t: Seq<int>, init2: nat)
    requires
        gcd_fold(init, s) > 0,
        init2 > 0 || exists|i: int| 0 <= i < t.len() && t[i] != 0,
        t.len() == s.len(),
        init2 * gcd_fold(init, s) == init,
        forall|i: int| 0 <= i < s.len() ==> #[trigger] t[i] * gcd_fold(init, s) == s[i],
    ensures
        gcd_fold(init2, t) == 1,
{
    let g = gcd_fold(init, s) as int;
    let h = gcd_fold(init2, t) as int;
    lemma_gcd_fold_divides(init2, t);
    // h·g divides init and all entries
    let k0 = choose|k: int| init2 as int == times(h, k);
    assert(init as int == times(h * g, k0)) by (nonlinear_arith)
        requires
            init2 as int == h * k0,
            init2 * g == init,
    ;
    assert forall|i: int| 0 <= i < s.len() implies divides(h * g, #[trigger] s[i]) by {
        assert(divides(h, t[i]));
        let k = choose|k: int| t[i] == times(h, k);
        assert(s[i] == times(h * g, k)) by (nonlinear_arith)
            requires
                t[i] == h * k,
                t[i] * g == s[i],
        ;
    }
    lemma_gcd_fold_greatest(init, s, h * g);
    lemma_gcd_fold_pos(init2, t);
    lemma_divisor_le(h * g, g);
    assert(h == 1) by (nonlinear_arith)
        requires
            h * g <= g,
            g > 0,
            h > 0,
    ;
}

/// The running gcd is positive when something non-zero is folded in.
pub proof fn lemma_gcd_fold_pos(init: nat, s: Seq<int>)
    requires
        init > 0 || exists|i: int| 0 <= i < s.len() && s[i] != 0,
    ensures
        gcd_fold(init, s) > 0,
    decreases s.len(),
{
    if s.len() > 0 {
        let p = s.drop_last();
        if init > 0 || exists|i: int| 0 <= i < p.len() && p[i] != 0 {
            lemma_gcd_fold_pos(init, p);
            lemma_gcd_pos(gcd_fold(init, p), abs(s.last()));
        } else {
            assert(s.last() != 0) by {
                let i = choose|i: int| 0 <= i < s.len() && s[i] != 0;
                if i < s.len() - 1 {
                    assert(p[i] == s[i]);
                }
            }
            lemma_gcd_pos(gcd_fold(init, p), abs(s.last()));
        }
    }
}

/// Once the running gcd is 1 it stays 1.
pub proof fn lemma_gcd_fold_one(init: nat, s: Seq<int>, n: int)
    requires
        0 <= n <= s.len(),
        gcd_fold(init, s.take(n)) == 1,
    ensures
        gcd_fold(init, s) == 1,
    decreases s.len() - n,
{
    if n < s.len() {
        let t = s.take(n + 1);
        assert(t.drop_last() =~= s.take(n));
        lemma_bezout_one(1, abs(t.last()), 1, 0);
        lemma_gcd_fold_one(init, s, n + 1);
    } else {
        assert(s.take(n) =~= s);
    }
}

} // verus!

verus! {

/// The running gcd of zero start and all-zero entries is zero.
pub proof fn lemma_gcd_fold_zero(s: Seq<int>)
    requires
        forall|i: int| 0 <= i < s.len() ==> #[trigger] s[i] == 0,
    ensures
        gcd_fold(0, s) == 0,
    decreases s.len(),
{
    if s.len() > 0 {
        let p = s.drop_last();
        assert forall|i: int| 0 <= i < p.len() implies #[trigger] p[i] == 0 by {
            assert(p[i] == s[i]);
        }
        lemma_gcd_fold_zero(p);
        assert(s[s.len() - 1] == 0);
    }
}

} // verus!

verus! {

/// The running gcd only sees absolute values.
pub proof fn lemma_gcd_fold_neg(init: nat, s: Seq<int>, t: Seq<int>)
    requires
        s.len() == t.len(),
        forall|i: int| 0 <= i < s.len() ==> #[trigger] t[i] == -s[i],
    ensures
        gcd_fold(init, t) == gcd_fold(init, s),
    decreases s.len(),
{
    if s.len() > 0 {
        let ps = s.drop_last();
        let pt = t.drop_last();
        assert forall|i: int| 0 <= i < ps.len() implies #[trigger] pt[i] == -ps[i] by {
            assert(t[i] == -s[i]);
        }
        lemma_gcd_fold_neg(init, ps, pt);
        assert(t[t.len() - 1] == -s[s.len() - 1]);
        assert(abs(t.last()) == abs(s.last()));
    }
}

} // verus!

verus! {

pub open spec fn factorial(n: nat) -> nat
    decreases n,
{
    if n == 0 {
        1
    } else {
        n * factorial((n - 1) as nat)
    }
}

/// Binomial coefficient by Pascal's rule.
pub open spec fn binom(n: nat, k: nat) -> nat
    decreases n, k,
{
    if k == 0 {
        1
    } else if n == 0 {
        0
    } else {
        binom((n - 1) as nat, (k - 1) as nat) + binom((n - 1) as nat, k)
    }
}

/// `C(n, k) = 0` for `k > n`.
pub proof fn lemma_binom_zero(n: nat, k: nat)
    requires
        k > n,
    ensures
        binom(n, k) == 0,
    decreases n,
{
    if n > 0 {
        lemma_binom_zero((n - 1) as nat, (k - 1) as nat);
        lemma_binom_zero((n - 1) as nat, k);
    }
}

/// Absorption: `(k+1)·C(n, k+1) = (n−k)·C(n, k)` for `k ≤ n`.
pub proof fn lemma_binom_step(n: nat, k: nat)
    requires
        k <= n,
    ensures
        (k + 1) * binom(n, k + 1) == (n - k) * binom(n, k),
    decreases n,
{
    if n == 0 {
        lemma_binom_zero(0, 1);
    } else {
        let m = (n - 1) as nat;
        // C(n, k+1) = C(m, k) + C(m, k+1)
        assert(binom(n, k + 1) == binom(m, k) + binom(m, k + 1));
        if k <= m {
            lemma_binom_step(m, k);
        } else {
            lemma_binom_zero(m, k + 1);
            lemma_binom_zero(m, k);
        }
        if k == 0 {
            assert(binom(n, 0) == 1);
            assert(binom(m, 0) == 1);
            lemma_binom_step(m, 0);
            assert((0 + 1) * binom(m, 0 + 1) == (m - 0) * binom(m, 0));
            assert(binom(m, 1) == m) by (nonlinear_arith)
                requires
                    (0 + 1) * binom(m, 0 + 1) == (m - 0) * binom(m, 0),
                    binom(m, 0) == 1,
            ;
            assert(binom(n, 1) == n);
        } else {
            let j = (k - 1) as nat;
            assert(binom(n, k) == binom(m, j) + binom(m, k));
            lemma_binom_step(m, j);
            // (k+1)C(n,k+1) = (k+1)C(m,k) + (m−k)C(m,k) = n·C(m,k)
            // (n−k)C(n,k) = (n−k)C(m,j) + (n−k)C(m,k) = k·C(m,k) + (n−k)C(m,k)
            assert((k + 1) * binom(n, k + 1) == (n - k) * binom(n, k)) by (nonlinear_arith)
                requires
                    binom(n, k + 1) == binom(m, k) + binom(m, k + 1),
                    binom(n, k) == binom(m, j) + binom(m, k),
                    k <= m ==> (k + 1) * binom(m, k + 1) == (m - k) * binom(m, k),
                    k > m ==> binom(m, k + 1) == 0,
                    k > m ==> binom(m, k) == 0,
                    (j + 1) * binom(m, j + 1) == (m - j) * binom(m, j),
                    j + 1 == k,
                    m + 1 == n,
            ;
        }
    }
}

} // verus!
