//! Decimal notation for integers, and the few string operations of `std`
//! that the parsers rely on.
use vstd::prelude::*;

verus! {

pub open spec fn is_digit_char(c: char) -> bool {
    '0' <= c && c <= '9'
}

pub open spec fn digit_of(c: char) -> nat {
    ((c as int) - ('0' as int)) as nat
}

pub open spec fn char_of_digit(n: nat) -> char {
    ((n as int) + ('0' as int)) as char
}

pub open spec fn all_digits(s: Seq<char>) -> bool {
    forall|i: int| 0 <= i < s.len() ==> is_digit_char(#[trigger] s[i])
}

/// Value of a string of decimal digits (most significant first).
pub open spec fn digits_num(s: Seq<char>) -> nat
    decreases s.len(),
{
    if s.len() == 0 {
        0
    } else {
        digits_num(s.drop_last()) * 10 + digit_of(s.last())
    }
}

/// Shortest decimal digits of a natural number.
pub open spec fn nat_repr(n: nat) -> Seq<char>
    decreases n,
{
    if n < 10 {
        seq![char_of_digit(n)]
    } else {
        nat_repr(n / 10).push(char_of_digit(n % 10))
    }
}

/// Decimal notation of an integer: a `-` for negative values, then the
/// shortest digits of the absolute value.
pub open spec fn int_repr(x: int) -> Seq<char> {
    if x < 0 {
        seq!['-'] + nat_repr((-x) as nat)
    } else {
        nat_repr(x as nat)
    }
}

/// The integer literals that `str::parse` accepts for primitive integers:
/// an optional `+` or `-`, then at least one decimal digit.
pub open spec fn std_int_literal(s: Seq<char>) -> Option<int> {
    if s.len() > 0 && (s[0] == '+' || s[0] == '-') {
        let body = s.drop_first();
        if body.len() > 0 && all_digits(body) {
            Some(if s[0] == '-' { -(digits_num(body) as int) } else { digits_num(body) as int })
        } else {
            None
        }
    } else if s.len() > 0 && all_digits(s) {
        Some(digits_num(s) as int)
    } else {
        None
    }
}

/// Digits of a big-integer literal body: a digit first, then digits and
/// `_` separators.
pub open spec fn big_body_ok(b: Seq<char>) -> bool {
    &&& b.len() > 0
    &&& is_digit_char(b[0])
    &&& forall|i: int| 0 <= i < b.len() ==> (is_digit_char(#[trigger] b[i]) || b[i] == '_')
}

pub open spec fn big_body_value(b: Seq<char>) -> nat {
    digits_num(b.filter(|c: char| c != '_'))
}

/// The decimal literals that `BigInt`'s `from_str` accepts: an optional
/// `-` or `+` (not both), then a body as in [`big_body_ok`].
pub open spec fn big_int_literal(s: Seq<char>) -> Option<int> {
    if s.len() > 0 && (s[0] == '-' || s[0] == '+') {
        let b = s.drop_first();
        if big_body_ok(b) {
            Some(if s[0] == '-' { -(big_body_value(b) as int) } else { big_body_value(b) as int })
        } else {
            None
        }
    } else if big_body_ok(s) {
        Some(big_body_value(s) as int)
    } else {
        None
    }
}

/// Unicode `White_Space` characters, as `char::is_whitespace` defines them.
pub open spec fn is_ws(c: char) -> bool {
    ||| c == ' '
    ||| ('\t' <= c && c <= '\r')
    ||| c == '\u{85}'
    ||| c == '\u{a0}'
    ||| c == '\u{1680}'
    ||| ('\u{2000}' <= c && c <= '\u{200a}')
    ||| c == '\u{2028}'
    ||| c == '\u{2029}'
    ||| c == '\u{202f}'
    ||| c == '\u{205f}'
    ||| c == '\u{3000}'
}

/// `s` with leading and trailing whitespace removed.
pub open spec fn trimmed(s: Seq<char>) -> Seq<char>
    decreases s.len(),
{
    if s.len() > 0 && is_ws(s[0]) {
        trimmed(s.drop_first())
    } else if s.len() > 0 && is_ws(s.last()) {
        trimmed(s.drop_last())
    } else {
        s
    }
}

/// Trusted: `str::trim`.  Claims the whitespace-trimmed text.
#[verifier::external_body]
pub(crate) fn str_trim(s: &str) -> (r: &str)
    ensures
        r@ == trimmed(s@),
{
    s.trim()
}

/// Trusted: `str::parse::<i128>`.  Claims `Some` exactly for the literals
/// of [`std_int_literal`] whose value fits, with that value.
#[verifier::external_body]
pub(crate) fn parse_i128(s: &str) -> (r: Option<i128>)
    ensures
        r matches Some(x) ==> std_int_literal(s@) == Some(x as int),
        r is None ==> (std_int_literal(s@) matches Some(v) ==> !(i128::MIN <= v <= i128::MAX)),
{
    s.parse::<i128>().ok()
}

/// Trusted: `str::parse::<i32>`.  Claims `Some` exactly for the literals
/// of [`std_int_literal`] whose value fits, with that value.
#[verifier::external_body]
pub(crate) fn parse_i32(s: &str) -> (r: Option<i32>)
    ensures
        r matches Some(x) ==> std_int_literal(s@) == Some(x as int),
        r is None ==> (std_int_literal(s@) matches Some(v) ==> !(i32::MIN <= v <= i32::MAX)),
{
    s.parse::<i32>().ok()
}

/// Trusted: `str::parse::<usize>`.  Claims `Some` exactly for the literals
/// of [`std_int_literal`] without a leading `-` whose value is in range, with
/// that value; an unsigned parse refuses every leading `-`, `-0` included.
#[verifier::external_body]
pub(crate) fn parse_usize(s: &str) -> (r: Option<usize>)
    ensures
        r matches Some(x) ==> std_int_literal(s@) == Some(x as int) && s@[0] != '-',
        r is None ==> (std_int_literal(s@) matches Some(v) ==> !(0 <= v <= usize::MAX) || s@[0] == '-'),
{
    s.parse::<usize>().ok()
}

/// `polytope {pi} constraint {ci}: expected {d} coefficients, got {got}`.
pub closed spec fn arity_text(pi: int, ci: int, d: int, got: int) -> Seq<char> {
    "polytope "@ + int_repr(pi) + " constraint "@ + int_repr(ci) + ": expected "@ + int_repr(d) + " coefficients, got "@
        + int_repr(got)
}

/// `polytope {pi} constraint {ci}: 0 ≤ {b} is infeasible`.
pub closed spec fn infeasible_text(pi: int, ci: int, b: Seq<char>) -> Seq<char> {
    "polytope "@ + int_repr(pi) + " constraint "@ + int_repr(ci) + ": 0 ≤ "@ + b + " is infeasible"@
}

/// `polytope {pi} constraint {ci}: the normal is zero`.
pub closed spec fn zero_normal_text(pi: int, ci: int) -> Seq<char> {
    "polytope "@ + int_repr(pi) + " constraint "@ + int_repr(ci) + ": the normal is zero"@
}

/// Trusted: `i128` formatted with `Display`.  Claims its decimal notation.
#[verifier::external_body]
pub(crate) fn i128_to_string(x: i128) -> (r: String)
    ensures
        r@ == int_repr(x as int),
{
    format!("{}", x)
}

/// Trusted: `usize` formatted with `Display`.  Claims its decimal notation.
#[verifier::external_body]
pub(crate) fn usize_to_string(x: usize) -> (r: String)
    ensures
        r@ == int_repr(x as int),
{
    format!("{}", x)
}

/// Trusted: `str::chars` collected into a vector.  Claims the characters.
#[verifier::external_body]
pub(crate) fn str_chars(s: &str) -> (r: Vec<char>)
    ensures
        r@ == s@,
{
    s.chars().collect()
}

/// Trusted: a `String` collected from characters.  Claims the same text.
#[verifier::external_body]
pub(crate) fn string_from_chars(v: &[char]) -> (r: String)
    ensures
        r@ == v@,
{
    v.iter().collect()
}

} // verus!

verus! {

pub proof fn lemma_trimmed_len(s: Seq<char>)
    ensures
        trimmed(s).len() <= s.len(),
    decreases s.len(),
{
    if s.len() > 0 && is_ws(s[0]) {
        lemma_trimmed_len(s.drop_first());
    } else if s.len() > 0 && is_ws(s.last()) {
        lemma_trimmed_len(s.drop_last());
    }
}

/// Index of the first `c1` or `c2` in `s`, or `s.len()` if there is none.
pub open spec fn first_of(s: Seq<char>, c1: char, c2: char) -> int
    decreases s.len(),
{
    if s.len() == 0 {
        0
    } else if s[0] == c1 || s[0] == c2 {
        0
    } else {
        1 + first_of(s.drop_first(), c1, c2)
    }
}

pub proof fn lemma_first_of(s: Seq<char>, c1: char, c2: char)
    ensures
        0 <= first_of(s, c1, c2) <= s.len(),
        forall|i: int| 0 <= i < first_of(s, c1, c2) ==> #[trigger] s[i] != c1 && s[i] != c2,
        first_of(s, c1, c2) < s.len() ==> (s[first_of(s, c1, c2)] == c1 || s[first_of(s, c1, c2)]
            == c2),
    decreases s.len(),
{
    if s.len() > 0 && !(s[0] == c1 || s[0] == c2) {
        lemma_first_of(s.drop_first(), c1, c2);
        assert forall|i: int| 0 <= i < first_of(s, c1, c2) implies #[trigger] s[i] != c1 && s[i] != c2 by {
            if i > 0 {
                assert(s[i] == s.drop_first()[i - 1]);
            }
        }
    }
}

/// Index of the first `c1` or `c2`.
pub fn find_first(v: &Vec<char>, c1: char, c2: char) -> (r: usize)
    ensures
        r as int == first_of(v@, c1, c2),
{
    let mut i: usize = 0;
    proof {
        lemma_first_of(v@, c1, c2);
    }
    while i < v.len()
        invariant
            i <= v@.len(),
            forall|j: int| 0 <= j < i ==> #[trigger] v@[j] != c1 && v@[j] != c2,
            0 <= first_of(v@, c1, c2) <= v@.len(),
            forall|j: int| 0 <= j < first_of(v@, c1, c2) ==> #[trigger] v@[j] != c1 && v@[j] != c2,
            first_of(v@, c1, c2) < v@.len() ==> (v@[first_of(v@, c1, c2)] == c1 || v@[first_of(
                v@,
                c1,
                c2,
            )] == c2),
        decreases v@.len() - i,
    {
        if v[i] == c1 || v[i] == c2 {
            return i;
        }
        i = i + 1;
    }
    i
}

/// Characters `a..b` of `v`.
pub fn sub_chars(v: &Vec<char>, a: usize, b: usize) -> (r: Vec<char>)
    requires
        a <= b <= v@.len(),
    ensures
        r@ == v@.subrange(a as int, b as int),
{
    let mut out: Vec<char> = Vec::new();
    let mut i = a;
    while i < b
        invariant
            a <= i <= b,
            b <= v@.len(),
            out@ == v@.subrange(a as int, i as int),
        decreases b - i,
    {
        out.push(v[i]);
        i = i + 1;
        proof {
            assert(out@ =~= v@.subrange(a as int, i as int));
        }
    }
    out
}

/// `s` without its leading `-` and `+` characters.
pub open spec fn strip_signs(s: Seq<char>) -> Seq<char>
    decreases s.len(),
{
    if s.len() > 0 && (s[0] == '-' || s[0] == '+') {
        strip_signs(s.drop_first())
    } else {
        s
    }
}

/// Drops the leading `-` and `+` characters.
pub fn strip_sign_chars(v: &Vec<char>) -> (r: Vec<char>)
    ensures
        r@ == strip_signs(v@),
{
    let mut i: usize = 0;
    proof {
        assert(v@.skip(0) =~= v@);
    }
    while i < v.len() && (v[i] == '-' || v[i] == '+')
        invariant
            i <= v@.len(),
            strip_signs(v@) == strip_signs(v@.skip(i as int)),
        decreases v@.len() - i,
    {
        proof {
            assert(v@.skip(i as int).drop_first() =~= v@.skip(i + 1));
        }
        i = i + 1;
    }
    proof {
        assert(v@.skip(i as int) =~= v@.subrange(i as int, v@.len() as int));
    }
    sub_chars(v, i, v.len())
}

} // verus!
