//! Decimal notation read back: what the writers print, the readers accept
//! and give back unchanged.
use crate::geom::RawConstraint;
use crate::io::{
    block_rows, block_text, content_line, count_of, eq_ci, ine_blocks, ine_lines, ine_text, lower, neg_entries, number_of, numbers_of,
    read_numbers, row_text, rows_text, starts_ci, tokens,
};
use crate::num::{q_literal, q_repr, z_literal, in_i128, Q};
use crate::sweep::qv;
use crate::text::{
    all_digits, big_body_ok, big_body_value, big_int_literal, char_of_digit, digit_of, digits_num, first_of, int_repr, is_digit_char,
    is_ws, nat_repr, std_int_literal, trimmed,
};
use vstd::prelude::*;

verus! {

/// The digits of a natural number are decimal digits and read back as it.
pub proof fn lemma_nat_repr(n: nat)
    ensures
        nat_repr(n).len() > 0,
        all_digits(nat_repr(n)),
        digits_num(nat_repr(n)) == n,
    decreases n,
{
    if n < 10 {
        let c = char_of_digit(n);
        assert(is_digit_char(c));
        assert(digit_of(c) == n);
        assert(nat_repr(n).drop_last().len() == 0);
        assert(digits_num(nat_repr(n).drop_last()) == 0);
    } else {
        lemma_nat_repr(n / 10);
        let p = nat_repr(n / 10);
        let c = char_of_digit(n % 10);
        assert(is_digit_char(c));
        assert(digit_of(c) == n % 10);
        assert(nat_repr(n).drop_last() =~= p);
        assert forall|i: int| 0 <= i < nat_repr(n).len() implies is_digit_char(#[trigger] nat_repr(n)[i]) by {
            if i < p.len() {
                assert(nat_repr(n)[i] == p[i]);
            }
        }
        assert((n / 10) * 10 + n % 10 == n);
    }
}

/// Decimal notation of an integer is a literal of that integer for
/// `str::parse`.
pub proof fn lemma_int_repr_literal(x: int)
    ensures
        std_int_literal(int_repr(x)) == Some(x),
        int_repr(x).len() > 0,
        is_digit_char(int_repr(x).last()),
        is_digit_char(int_repr(x)[0]) || int_repr(x)[0] == '-',
        forall|i: int| 0 <= i < int_repr(x).len() ==> is_digit_char(#[trigger] int_repr(x)[i]) || (i == 0 && int_repr(x)[i] == '-'),
{
    if x < 0 {
        let r = nat_repr((-x) as nat);
        lemma_nat_repr((-x) as nat);
        let s = int_repr(x);
        assert(s =~= seq!['-'] + r);
        assert(s.drop_first() =~= r);
        assert(s.last() == r.last());
        assert forall|i: int| 0 <= i < s.len() implies is_digit_char(#[trigger] s[i]) || (i == 0 && s[i] == '-') by {
            if i > 0 {
                assert(s[i] == r[i - 1]);
            }
        }
    } else {
        lemma_nat_repr(x as nat);
        let r = nat_repr(x as nat);
        assert(is_digit_char(r[0]));
    }
}

/// Decimal notation of an integer is read back by the integer reader.
pub proof fn lemma_int_repr_z(x: int)
    ensures
        z_literal(int_repr(x)) == Some(x),
{
    lemma_int_repr_literal(x);
    if !in_i128(x) {
        let s = int_repr(x);
        let b = if x < 0 {
            s.drop_first()
        } else {
            s
        };
        let n = if x < 0 {
            (-x) as nat
        } else {
            x as nat
        };
        lemma_nat_repr(n);
        if x < 0 {
            assert(s =~= seq!['-'] + nat_repr(n));
            assert(b =~= nat_repr(n));
        }
        assert(big_body_ok(b));
        assert(b.filter(|c: char| c != '_') =~= b) by {
            lemma_filter_digits(b);
        }
    }
}

/// Filtering the separators out of a digit string changes nothing.
proof fn lemma_filter_digits(b: Seq<char>)
    requires
        all_digits(b),
    ensures
        b.filter(|c: char| c != '_') == b,
    decreases b.len(),
{
    reveal(Seq::filter);
    if b.len() > 0 {
        assert(all_digits(b.drop_last())) by {
            assert forall|i: int| 0 <= i < b.drop_last().len() implies is_digit_char(#[trigger] b.drop_last()[i]) by {
                assert(b.drop_last()[i] == b[i]);
            }
        }
        lemma_filter_digits(b.drop_last());
        assert(is_digit_char(b.last()));
        assert(b.drop_last().push(b.last()) =~= b);
    }
}

/// A character that is neither of two others is skipped by `first_of`.
proof fn lemma_first_of_absent(s: Seq<char>, c1: char, c2: char)
    requires
        forall|i: int| 0 <= i < s.len() ==> #[trigger] s[i] != c1 && s[i] != c2,
    ensures
        first_of(s, c1, c2) == s.len(),
    decreases s.len(),
{
    if s.len() > 0 {
        assert forall|i: int| 0 <= i < s.drop_first().len() implies #[trigger] s.drop_first()[i] != c1 && s.drop_first()[i]
            != c2 by {
            assert(s.drop_first()[i] == s[i + 1]);
        }
        lemma_first_of_absent(s.drop_first(), c1, c2);
    }
}

/// `first_of` finds the first of two characters after a prefix without
/// them.
proof fn lemma_first_of_after(p: Seq<char>, c: char, rest: Seq<char>, c1: char, c2: char)
    requires
        forall|i: int| 0 <= i < p.len() ==> #[trigger] p[i] != c1 && p[i] != c2,
        c == c1 || c == c2,
    ensures
        first_of(p + seq![c] + rest, c1, c2) == p.len(),
    decreases p.len(),
{
    let s = p + seq![c] + rest;
    if p.len() > 0 {
        assert forall|i: int| 0 <= i < p.drop_first().len() implies #[trigger] p.drop_first()[i] != c1 && p.drop_first()[i]
            != c2 by {
            assert(p.drop_first()[i] == p[i + 1]);
        }
        lemma_first_of_after(p.drop_first(), c, rest, c1, c2);
        assert(s.drop_first() =~= p.drop_first() + seq![c] + rest);
        assert(s[0] == p[0]);
    } else {
        assert(s[0] == c);
    }
}

/// Text with no surrounding whitespace is its own trim.
pub proof fn lemma_trimmed_id(s: Seq<char>)
    requires
        s.len() > 0,
        !is_ws(s[0]),
        !is_ws(s.last()),
    ensures
        trimmed(s) == s,
{
}

/// Decimal notation of an integer has no whitespace at its ends and no
/// `/`, `.`, `e` or `E`.
proof fn lemma_int_repr_chars(x: int)
    ensures
        int_repr(x).len() > 0,
        !is_ws(int_repr(x)[0]),
        !is_ws(int_repr(x).last()),
        forall|i: int|
            0 <= i < int_repr(x).len() ==> #[trigger] int_repr(x)[i] != '/' && int_repr(x)[i] != '.' && int_repr(x)[i] != 'e'
                && int_repr(x)[i] != 'E' && !is_ws(int_repr(x)[i]),
{
    lemma_int_repr_literal(x);
}

/// What `Q::to_string` prints, `Q::parse` reads back: the notation of
/// `n/d` (or of `n` when `d = 1`) for `d ≥ 1` is a literal of `(n, d)`.
pub proof fn lemma_q_repr_literal(n: int, d: int)
    requires
        d >= 1,
    ensures
        q_literal(q_repr(n, d)) == Some((n, d)),
{
    lemma_int_repr_chars(n);
    lemma_int_repr_chars(d);
    lemma_int_repr_z(n);
    lemma_int_repr_z(d);
    let s = q_repr(n, d);
    let a = int_repr(n);
    if d == 1 {
        assert(s == a);
        lemma_trimmed_id(a);
        lemma_first_of_absent(a, '/', '/');
        lemma_first_of_absent(a, '.', '.');
        lemma_first_of_absent(a, 'e', 'E');
        lemma_trimmed_id(a);
    } else {
        let b = int_repr(d);
        assert(s == a + seq!['/'] + b);
        assert(s[0] == a[0]);
        assert(s.last() == b.last());
        lemma_trimmed_id(s);
        lemma_first_of_after(a, '/', b, '/', '/');
        assert(s.take(a.len() as int) =~= a);
        assert(s.skip(a.len() as int + 1) =~= b);
        lemma_trimmed_id(a);
        lemma_trimmed_id(b);
    }
}

/// A word: non-empty text without whitespace.
pub open spec fn word(w: Seq<char>) -> bool {
    w.len() > 0 && forall|i: int| 0 <= i < w.len() ==> !is_ws(#[trigger] w[i])
}

/// A word after text that is empty or ends in whitespace is a token of its
/// own.
pub proof fn lemma_tokens_word(y: Seq<char>, w: Seq<char>)
    requires
        y.len() == 0 || is_ws(y.last()),
        word(w),
    ensures
        crate::io::tokens(y + w) == crate::io::tokens(y).push(w),
    decreases w.len(),
{
    let s = y + w;
    assert(s.drop_last() =~= y + w.drop_last());
    assert(s.last() == w.last());
    if w.len() == 1 {
        assert(y + w.drop_last() =~= y);
        assert(seq![w.last()] =~= w);
    } else {
        let w0 = w.drop_last();
        assert(word(w0)) by {
            assert forall|i: int| 0 <= i < w0.len() implies !is_ws(#[trigger] w0[i]) by {
                assert(w0[i] == w[i]);
            }
        }
        lemma_tokens_word(y, w0);
        assert((y + w0).last() == w0.last());
        assert(w0.push(w.last()) =~= w);
    }
}

/// A space then a word after any text adds that word as a token.
pub proof fn lemma_tokens_space_word(x: Seq<char>, w: Seq<char>)
    requires
        word(w),
    ensures
        crate::io::tokens(x + seq![' '] + w) == crate::io::tokens(x).push(w),
{
    let y = x + seq![' '];
    assert(y.drop_last() =~= x);
    assert(is_ws(y.last()));
    assert(crate::io::tokens(y) == crate::io::tokens(x));
    lemma_tokens_word(y, w);
}

/// A single word is a single token.
pub proof fn lemma_tokens_single(w: Seq<char>)
    requires
        word(w),
    ensures
        crate::io::tokens(w) == seq![w],
{
    lemma_tokens_word(Seq::<char>::empty(), w);
    assert(Seq::<char>::empty() + w =~= w);
}

/// The notation of an integer is a word.
pub proof fn lemma_int_repr_word(x: int)
    ensures
        word(int_repr(x)),
{
    lemma_int_repr_literal(x);
    assert forall|i: int| 0 <= i < int_repr(x).len() implies !is_ws(#[trigger] int_repr(x)[i]) by {}
}

/// The notation of a rational is a word without `\n`, starting with a digit
/// or `-` and ending with a digit.
pub proof fn lemma_q_repr_word(n: int, d: int)
    ensures
        word(q_repr(n, d)),
        is_digit_char(q_repr(n, d)[0]) || q_repr(n, d)[0] == '-',
        is_digit_char(q_repr(n, d).last()),
        forall|i: int| 0 <= i < q_repr(n, d).len() ==> #[trigger] q_repr(n, d)[i] != '\n',
{
    lemma_int_repr_literal(n);
    lemma_int_repr_literal(d);
    let s = q_repr(n, d);
    let a = int_repr(n);
    if d != 1 {
        let b = int_repr(d);
        assert(s == a + seq!['/'] + b);
        assert forall|i: int| 0 <= i < s.len() implies !is_ws(#[trigger] s[i]) && s[i] != '\n' by {
            if i < a.len() {
                assert(s[i] == a[i]);
            } else if i > a.len() {
                assert(s[i] == b[i - a.len() - 1]);
            }
        }
    }
}

/// The line of one constraint row, without its line break.
pub open spec fn row_line(c: RawConstraint) -> Seq<char> {
    q_repr(c.b.num@, c.b.den@) + neg_entries(c.a@)
}

/// The words of `−a_1 … −a_k`.
pub open spec fn neg_words(a: Seq<Q>) -> Seq<Seq<char>> {
    Seq::new(a.len(), |k: int| q_repr(-a[k].num@, a[k].den@))
}

/// The numbers of a row: `b`, then `−a_1 … −a_d`.
pub open spec fn row_vals(c: RawConstraint) -> Seq<(int, int)> {
    seq![qv(c.b)] + Seq::new(c.a@.len(), |k: int| (-c.a@[k].num@, c.a@[k].den@))
}

/// The tokens of a row line are the notations of its numbers.
pub proof fn lemma_row_tokens(b: Q, a: Seq<Q>)
    ensures
        tokens(q_repr(b.num@, b.den@) + neg_entries(a)) == seq![q_repr(b.num@, b.den@)] + neg_words(a),
    decreases a.len(),
{
    let head = q_repr(b.num@, b.den@);
    lemma_q_repr_word(b.num@, b.den@);
    if a.len() == 0 {
        assert(neg_entries(a) =~= Seq::<char>::empty());
        assert(head + neg_entries(a) =~= head);
        lemma_tokens_single(head);
        assert(seq![head] + neg_words(a) =~= seq![head]);
    } else {
        let a0 = a.drop_last();
        let w = q_repr(-a.last().num@, a.last().den@);
        lemma_q_repr_word(-a.last().num@, a.last().den@);
        lemma_row_tokens(b, a0);
        assert(head + neg_entries(a) =~= (head + neg_entries(a0)) + seq![' '] + w);
        lemma_tokens_space_word(head + neg_entries(a0), w);
        assert(neg_words(a) =~= neg_words(a0).push(w));
        assert(seq![head] + neg_words(a) =~= (seq![head] + neg_words(a0)).push(w));
    }
}

/// Token lists whose tokens all read as numbers read as those numbers.
pub proof fn lemma_numbers_of(ws: Seq<Seq<char>>, vals: Seq<(int, int)>)
    requires
        ws.len() == vals.len(),
        forall|k: int| 0 <= k < ws.len() ==> number_of(#[trigger] ws[k]) == Some(vals[k]),
    ensures
        numbers_of(ws) == Some(vals),
    decreases ws.len(),
{
    if ws.len() > 0 {
        let w0 = ws.drop_last();
        let v0 = vals.drop_last();
        assert forall|k: int| 0 <= k < w0.len() implies number_of(#[trigger] w0[k]) == Some(v0[k]) by {
            assert(w0[k] == ws[k] && v0[k] == vals[k]);
        }
        lemma_numbers_of(w0, v0);
        assert(number_of(ws.last()) == Some(vals.last()));
        assert(v0.push(vals.last()) =~= vals);
    }
}

/// A row of well-formed rationals whose notations fit the reader's length
/// limit.
pub open spec fn row_ok(c: RawConstraint) -> bool {
    &&& c.wf()
    &&& q_repr(c.b.num@, c.b.den@).len() <= 0xFFFF_FFFF
    &&& forall|k: int| 0 <= k < c.a@.len() ==> (#[trigger] q_repr(-c.a@[k].num@, c.a@[k].den@)).len() <= 0xFFFF_FFFF
}

/// A row line reads back as the row's numbers.
pub proof fn lemma_row_numbers(c: RawConstraint)
    requires
        row_ok(c),
    ensures
        numbers_of(tokens(row_line(c))) == Some(row_vals(c)),
{
    lemma_row_tokens(c.b, c.a@);
    let ws = seq![q_repr(c.b.num@, c.b.den@)] + neg_words(c.a@);
    let vals = row_vals(c);
    assert forall|k: int| 0 <= k < ws.len() implies number_of(#[trigger] ws[k]) == Some(vals[k]) by {
        if k == 0 {
            lemma_q_repr_literal(c.b.num@, c.b.den@);
        } else {
            assert(c.a@[k - 1].wf());
            assert(ws[k] == q_repr(-c.a@[k - 1].num@, c.a@[k - 1].den@));
            lemma_q_repr_literal(-c.a@[k - 1].num@, c.a@[k - 1].den@);
        }
    }
    lemma_numbers_of(ws, vals);
}

/// The numbers of the first `k` rows, row after row.
pub open spec fn flat_vals(p: Seq<RawConstraint>, k: int) -> Seq<(int, int)>
    decreases k,
{
    if k <= 0 {
        seq![]
    } else {
        flat_vals(p, k - 1) + row_vals(p[k - 1])
    }
}

/// Rows of `d` coefficients.
pub open spec fn rows_of_dim(p: Seq<RawConstraint>, d: int) -> bool {
    forall|i: int| 0 <= i < p.len() ==> (#[trigger] p[i]).a@.len() == d
}

/// `k` rows of `d + 1` numbers each.
proof fn lemma_flat_len(p: Seq<RawConstraint>, d: int, k: int)
    requires
        rows_of_dim(p, d),
        0 <= k <= p.len(),
        d >= 0,
    ensures
        flat_vals(p, k).len() == k * (d + 1),
    decreases k,
{
    if k > 0 {
        lemma_flat_len(p, d, k - 1);
        assert(p[k - 1].a@.len() == d);
        assert(row_vals(p[k - 1]).len() == d + 1);
        assert(flat_vals(p, k).len() == flat_vals(p, k - 1).len() + row_vals(p[k - 1]).len());
        assert((k - 1) * (d + 1) + (d + 1) == k * (d + 1)) by (nonlinear_arith);
    } else {
        assert(k * (d + 1) == 0) by (nonlinear_arith)
            requires
                k == 0,
        ;
    }
}

/// Number `t` of row `i` sits at `i·(d + 1) + t`.
proof fn lemma_flat_index(p: Seq<RawConstraint>, d: int, k: int, i: int, t: int)
    requires
        rows_of_dim(p, d),
        0 <= k <= p.len(),
        d >= 0,
        0 <= i < k,
        0 <= t <= d,
    ensures
        i * (d + 1) + t < flat_vals(p, k).len(),
        flat_vals(p, k)[i * (d + 1) + t] == row_vals(p[i])[t],
    decreases k,
{
    lemma_flat_len(p, d, k);
    lemma_flat_len(p, d, k - 1);
    assert(p[k - 1].a@.len() == d);
    assert((i + 1) * (d + 1) <= k * (d + 1)) by (nonlinear_arith)
        requires
            i + 1 <= k,
            d >= 0,
    ;
    assert((i + 1) * (d + 1) == i * (d + 1) + d + 1) by (nonlinear_arith);
    assert(row_vals(p[k - 1]).len() == d + 1);
    if i < k - 1 {
        lemma_flat_index(p, d, k - 1, i, t);
    } else {
        assert((k - 1) * (d + 1) + t == i * (d + 1) + t);
    }
}

/// A row line is not `end`.
proof fn lemma_row_not_end(c: RawConstraint)
    ensures
        !eq_ci(row_line(c), "end"@),
{
    reveal_strlit("end");
    lemma_q_repr_word(c.b.num@, c.b.den@);
    let r = row_line(c);
    assert(r[0] == q_repr(c.b.num@, c.b.den@)[0]);
    assert(lower(r[0]) == r[0]);
}

/// Reading the numbers of `m` row lines in a row.
pub proof fn lemma_read_rows(lines: Seq<Seq<char>>, li: int, p: Seq<RawConstraint>, d: int, k: int)
    requires
        0 <= li,
        d >= 0,
        rows_of_dim(p, d),
        0 <= k <= p.len(),
        li + p.len() <= lines.len(),
        forall|i: int| 0 <= i < p.len() ==> row_ok(#[trigger] p[i]),
        forall|i: int| 0 <= i < p.len() ==> #[trigger] lines[li + i] == row_line(p[i]),
    ensures
        read_numbers(lines, li + k, p.len() * (d + 1), flat_vals(p, k)) == Some((li + p.len(), flat_vals(p, p.len() as int))),
    decreases p.len() - k,
{
    let m = p.len() as int;
    lemma_flat_len(p, d, k);
    if k < m {
        assert(k * (d + 1) < m * (d + 1)) by (nonlinear_arith)
            requires
                k < m,
                d >= 0,
        ;
        assert(lines[li + k] == row_line(p[k]));
        lemma_row_not_end(p[k]);
        lemma_row_numbers(p[k]);
        lemma_read_rows(lines, li, p, d, k + 1);
        assert(flat_vals(p, k + 1) == flat_vals(p, k) + row_vals(p[k]));
    } else {
        assert(k * (d + 1) == m * (d + 1));
    }
}

/// The values of a polytope's rows: `(a, b)` per constraint.
pub open spec fn poly_vals(p: Seq<RawConstraint>) -> Seq<(Seq<(int, int)>, (int, int))> {
    Seq::new(p.len(), |i: int| (crate::sweep::qvs(p[i].a@), qv(p[i].b)))
}

/// The block read back from the rows' numbers holds the rows' values.
pub proof fn lemma_block_rows(p: Seq<RawConstraint>, d: int)
    requires
        rows_of_dim(p, d),
        d >= 1,
    ensures
        block_rows(flat_vals(p, p.len() as int), p.len() as int, d + 1) == poly_vals(p),
{
    let m = p.len() as int;
    let n = d + 1;
    let nums = flat_vals(p, m);
    let br = block_rows(nums, m, n);
    let pv = poly_vals(p);
    assert forall|i: int| 0 <= i < m implies #[trigger] br[i] == pv[i] by {
        assert(p[i].a@.len() == d);
        lemma_flat_index(p, d, m, i, 0);
        assert(br[i].1 == nums[i * n]);
        assert(nums[i * n + 0] == row_vals(p[i])[0]);
        assert(i * n + 0 == i * n);
        assert forall|j: int| 0 <= j < d implies #[trigger] br[i].0[j] == pv[i].0[j] by {
            lemma_flat_index(p, d, m, i, j + 1);
            assert(i * (d + 1) + (j + 1) == i * n + j + 1);
            assert(row_vals(p[i])[j + 1] == (-p[i].a@[j].num@, p[i].a@[j].den@));
        }
        assert(br[i].0 =~= pv[i].0);
    }
    assert(br =~= pv);
}

/// Lines joined, each followed by a line break.
pub open spec fn join_lines(ls: Seq<Seq<char>>) -> Seq<char>
    decreases ls.len(),
{
    if ls.len() == 0 {
        seq![]
    } else {
        join_lines(ls.drop_last()) + ls.last() + seq!['\n']
    }
}

/// Joining distributes over concatenation of line lists.
proof fn lemma_join_add(x: Seq<Seq<char>>, y: Seq<Seq<char>>)
    ensures
        join_lines(x + y) == join_lines(x) + join_lines(y),
    decreases y.len(),
{
    if y.len() == 0 {
        assert(x + y =~= x);
        assert(join_lines(x) + join_lines(y) =~= join_lines(x));
    } else {
        lemma_join_add(x, y.drop_last());
        assert((x + y).drop_last() =~= x + y.drop_last());
        assert((x + y).last() == y.last());
        assert(join_lines(x) + join_lines(y) =~= join_lines(x) + join_lines(y.drop_last()) + y.last() + seq!['\n']);
    }
}

/// One more line at the end.
proof fn lemma_join_push(ls: Seq<Seq<char>>, x: Seq<char>)
    ensures
        join_lines(ls.push(x)) == join_lines(ls) + x + seq!['\n'],
{
    assert(ls.push(x).drop_last() =~= ls);
    assert(ls.push(x).last() == x);
}

/// A single line.
proof fn lemma_join_single(x: Seq<char>)
    ensures
        join_lines(seq![x]) == x + seq!['\n'],
{
    lemma_join_push(Seq::<Seq<char>>::empty(), x);
    assert(Seq::<Seq<char>>::empty().push(x) =~= seq![x]);
    assert(join_lines(Seq::<Seq<char>>::empty()) == Seq::<char>::empty());
    assert(Seq::<char>::empty() + x + seq!['\n'] =~= x + seq!['\n']);
}

/// The first line, its break, then the rest.
proof fn lemma_join_front(ls: Seq<Seq<char>>)
    requires
        ls.len() > 0,
    ensures
        join_lines(ls) == ls[0] + seq!['\n'] + join_lines(ls.drop_first()),
{
    lemma_join_add(seq![ls[0]], ls.drop_first());
    assert(seq![ls[0]] + ls.drop_first() =~= ls);
    lemma_join_single(ls[0]);
}

/// A line the `.ine` reader keeps as it is: non-empty, no line break, no
/// whitespace at its ends, not a `*` comment.
pub open spec fn good_line(l: Seq<char>) -> bool {
    &&& l.len() > 0
    &&& !is_ws(l[0])
    &&& !is_ws(l.last())
    &&& l[0] != '*'
    &&& forall|i: int| 0 <= i < l.len() ==> #[trigger] l[i] != '\n'
}

/// Good lines joined are read back as themselves.
pub proof fn lemma_lines_back(ls: Seq<Seq<char>>)
    requires
        forall|i: int| 0 <= i < ls.len() ==> good_line(#[trigger] ls[i]),
    ensures
        ine_lines(join_lines(ls)) == ls,
    decreases ls.len(),
{
    if ls.len() > 0 {
        let l = ls[0];
        let rest = ls.drop_first();
        assert(good_line(l));
        assert forall|i: int| 0 <= i < rest.len() implies good_line(#[trigger] rest[i]) by {
            assert(rest[i] == ls[i + 1]);
        }
        lemma_lines_back(rest);
        lemma_join_front(ls);
        let s = join_lines(ls);
        lemma_first_of_after(l, '\n', join_lines(rest), '\n', '\n');
        assert(s.take(l.len() as int) =~= l);
        assert(s.skip(l.len() as int + 1) =~= join_lines(rest));
        lemma_trimmed_id(l);
        assert(content_line(l));
        assert(ine_lines(s) == seq![l] + ine_lines(join_lines(rest)));
        assert(seq![l] + rest =~= ls);
    } else {
        assert(join_lines(ls) =~= Seq::<char>::empty());
    }
}

/// The header line of a block with `m` rows in dimension `d`.
pub open spec fn header_line(m: int, d: int) -> Seq<char> {
    int_repr(m) + seq![' '] + int_repr(d + 1) + " rational"@
}

/// The lines of the block of polytope number `i`.
pub open spec fn block_lines(i: int, d: int, p: Seq<RawConstraint>) -> Seq<Seq<char>> {
    seq!["polytope_"@ + int_repr(i), "H-representation"@, "begin"@, header_line(p.len() as int, d)] + Seq::new(
        p.len(),
        |k: int| row_line(p[k]),
    ) + seq!["end"@]
}

/// The lines of the blocks of the first `n` polytopes.
pub open spec fn all_lines(d: int, ps: Seq<Vec<RawConstraint>>, n: int) -> Seq<Seq<char>>
    decreases n,
{
    if n <= 0 {
        seq![]
    } else {
        all_lines(d, ps, n - 1) + block_lines(n - 1, d, ps[n - 1]@)
    }
}

/// The rows' text is their lines joined.
proof fn lemma_rows_join(p: Seq<RawConstraint>)
    ensures
        rows_text(p) == join_lines(Seq::new(p.len(), |k: int| row_line(p[k]))),
    decreases p.len(),
{
    let rl = Seq::new(p.len(), |k: int| row_line(p[k]));
    if p.len() > 0 {
        lemma_rows_join(p.drop_last());
        assert(rl.drop_last() =~= Seq::new(p.drop_last().len(), |k: int| row_line(p.drop_last()[k])));
        assert(rl.last() == row_line(p.last()));
        assert(row_text(p.last()) =~= row_line(p.last()) + seq!['\n']);
    } else {
        assert(rows_text(p) =~= join_lines(rl));
    }
}

/// A block's text is its lines joined.
proof fn lemma_block_join(i: int, d: int, p: Seq<RawConstraint>)
    ensures
        block_text(i, d, p) == join_lines(block_lines(i, d, p)),
{
    reveal_strlit("\nH-representation\nbegin\n");
    reveal_strlit("H-representation");
    reveal_strlit("begin");
    reveal_strlit(" rational\n");
    reveal_strlit(" rational");
    reveal_strlit("end\n");
    reveal_strlit("end");
    let head = seq!["polytope_"@ + int_repr(i), "H-representation"@, "begin"@, header_line(p.len() as int, d)];
    let rl = Seq::new(p.len(), |k: int| row_line(p[k]));
    lemma_join_add(head + rl, seq!["end"@]);
    lemma_join_add(head, rl);
    lemma_rows_join(p);
    lemma_join_single("end"@);
    assert("end"@ + seq!['\n'] =~= "end\n"@);
    let l1 = "polytope_"@ + int_repr(i);
    let hl = header_line(p.len() as int, d);
    lemma_join_single(l1);
    lemma_join_push(seq![l1], "H-representation"@);
    lemma_join_push(seq![l1, "H-representation"@], "begin"@);
    lemma_join_push(seq![l1, "H-representation"@, "begin"@], hl);
    assert(seq![l1].push("H-representation"@) =~= seq![l1, "H-representation"@]);
    assert(seq![l1, "H-representation"@].push("begin"@) =~= seq![l1, "H-representation"@, "begin"@]);
    assert(seq![l1, "H-representation"@, "begin"@].push(hl) =~= head);
    assert(seq!['\n'] + "H-representation"@ + seq!['\n'] + "begin"@ + seq!['\n'] =~= "\nH-representation\nbegin\n"@);
    assert(" rational"@ + seq!['\n'] =~= " rational\n"@);
    assert(join_lines(head) =~= "polytope_"@ + int_repr(i) + "\nH-representation\nbegin\n"@ + int_repr(p.len() as int) + seq![' ']
        + int_repr(d + 1) + " rational\n"@);
    assert(block_text(i, d, p) =~= join_lines(head) + rows_text(p) + "end\n"@);
}

/// The text written is the lines joined.
pub proof fn lemma_text_join(d: int, ps: Seq<Vec<RawConstraint>>, n: int)
    ensures
        ine_text(d, ps, n) == join_lines(all_lines(d, ps, n)),
    decreases n,
{
    if n > 0 {
        lemma_text_join(d, ps, n - 1);
        lemma_block_join(n - 1, d, ps[n - 1]@);
        lemma_join_add(all_lines(d, ps, n - 1), block_lines(n - 1, d, ps[n - 1]@));
    } else {
        assert(ine_text(d, ps, n) =~= join_lines(all_lines(d, ps, n)));
    }
}

/// The notes of `−a_1 … −a_k` hold no line break, and end in a digit
/// when there is one.
proof fn lemma_neg_entries_chars(a: Seq<Q>)
    ensures
        forall|i: int| 0 <= i < neg_entries(a).len() ==> #[trigger] neg_entries(a)[i] != '\n',
        a.len() > 0 ==> neg_entries(a).len() > 0 && is_digit_char(neg_entries(a).last()),
    decreases a.len(),
{
    if a.len() > 0 {
        let a0 = a.drop_last();
        let w = q_repr(-a.last().num@, a.last().den@);
        lemma_neg_entries_chars(a0);
        lemma_q_repr_word(-a.last().num@, a.last().den@);
        let x = neg_entries(a0);
        assert(neg_entries(a) == x + seq![' '] + w);
        assert forall|i: int| 0 <= i < neg_entries(a).len() implies #[trigger] neg_entries(a)[i] != '\n' by {
            if i < x.len() {
                assert(neg_entries(a)[i] == x[i]);
            } else if i > x.len() {
                assert(neg_entries(a)[i] == w[i - x.len() - 1]);
            }
        }
        assert(neg_entries(a).last() == w.last());
    }
}

/// Row lines are good lines.
proof fn lemma_row_good(c: RawConstraint)
    ensures
        good_line(row_line(c)),
{
    let h = q_repr(c.b.num@, c.b.den@);
    lemma_q_repr_word(c.b.num@, c.b.den@);
    lemma_neg_entries_chars(c.a@);
    let r = row_line(c);
    assert(r[0] == h[0]);
    if c.a@.len() > 0 {
        assert(r.last() == neg_entries(c.a@).last());
    } else {
        assert(neg_entries(c.a@) =~= Seq::<char>::empty());
        assert(r.last() == h.last());
    }
    assert forall|i: int| 0 <= i < r.len() implies #[trigger] r[i] != '\n' by {
        if i < h.len() {
            assert(r[i] == h[i]);
        } else {
            assert(r[i] == neg_entries(c.a@)[i - h.len()]);
        }
    }
}

/// The lines of a block are good lines.
proof fn lemma_block_good(i: int, d: int, p: Seq<RawConstraint>)
    requires
        i >= 0,
        d >= 0,
    ensures
        forall|k: int| 0 <= k < block_lines(i, d, p).len() ==> good_line(#[trigger] block_lines(i, d, p)[k]),
{
    reveal_strlit("polytope_");
    reveal_strlit("H-representation");
    reveal_strlit("begin");
    reveal_strlit(" rational");
    reveal_strlit("end");
    let b = block_lines(i, d, p);
    let m = p.len() as int;
    lemma_int_repr_literal(i);
    lemma_int_repr_literal(m);
    lemma_int_repr_literal(d + 1);
    let l1 = "polytope_"@ + int_repr(i);
    assert(good_line(l1)) by {
        assert(l1[0] == 'p');
        assert(l1.last() == int_repr(i).last());
        assert forall|t: int| 0 <= t < l1.len() implies #[trigger] l1[t] != '\n' by {
            if t >= 9 {
                assert(l1[t] == int_repr(i)[t - 9]);
            }
        }
    }
    let hl = header_line(m, d);
    assert(good_line(hl)) by {
        let x = int_repr(m);
        let y = int_repr(d + 1);
        assert(hl[0] == x[0]);
        assert(hl.last() == 'l');
        assert forall|t: int| 0 <= t < hl.len() implies #[trigger] hl[t] != '\n' by {
            if t < x.len() {
                assert(hl[t] == x[t]);
            } else if t > x.len() && t < x.len() + 1 + y.len() {
                assert(hl[t] == y[t - x.len() - 1]);
            } else if t >= x.len() + 1 + y.len() {
                assert(hl[t] == " rational"@[t - x.len() - 1 - y.len()]);
            }
        }
    }
    assert(good_line("H-representation"@));
    assert(good_line("begin"@));
    assert(good_line("end"@));
    assert forall|k: int| 0 <= k < b.len() implies good_line(#[trigger] b[k]) by {
        if k == 0 {
            assert(b[k] == l1);
        } else if k == 1 {
            assert(b[k] == "H-representation"@);
        } else if k == 2 {
            assert(b[k] == "begin"@);
        } else if k == 3 {
            assert(b[k] == hl);
        } else if k < 4 + m {
            assert(b[k] == row_line(p[k - 4]));
            lemma_row_good(p[k - 4]);
        } else {
            assert(b[k] == "end"@);
        }
    }
}

/// The lines of all blocks are good lines.
proof fn lemma_all_good(d: int, ps: Seq<Vec<RawConstraint>>, n: int)
    requires
        d >= 0,
    ensures
        forall|k: int| 0 <= k < all_lines(d, ps, n).len() ==> good_line(#[trigger] all_lines(d, ps, n)[k]),
    decreases n,
{
    if n > 0 {
        lemma_all_good(d, ps, n - 1);
        lemma_block_good(n - 1, d, ps[n - 1]@);
        let x = all_lines(d, ps, n - 1);
        let b = block_lines(n - 1, d, ps[n - 1]@);
        assert forall|k: int| 0 <= k < all_lines(d, ps, n).len() implies good_line(#[trigger] all_lines(d, ps, n)[k]) by {
            if k < x.len() {
                assert(all_lines(d, ps, n)[k] == x[k]);
            } else {
                assert(all_lines(d, ps, n)[k] == b[k - x.len()]);
            }
        }
    }
}

/// Earlier blocks' lines come first.
proof fn lemma_all_prefix(d: int, ps: Seq<Vec<RawConstraint>>, n: int, big: int)
    requires
        0 <= n <= big,
    ensures
        all_lines(d, ps, n).len() <= all_lines(d, ps, big).len(),
        forall|k: int| 0 <= k < all_lines(d, ps, n).len() ==> #[trigger] all_lines(d, ps, big)[k] == all_lines(d, ps, n)[k],
    decreases big,
{
    if big > n {
        lemma_all_prefix(d, ps, n, big - 1);
        assert forall|k: int| 0 <= k < all_lines(d, ps, n).len() implies #[trigger] all_lines(d, ps, big)[k] == all_lines(
            d,
            ps,
            n,
        )[k] by {
            assert(all_lines(d, ps, big)[k] == all_lines(d, ps, big - 1)[k]);
        }
    }
}

/// The tokens of a block header.
proof fn lemma_header_tokens(m: int, d: int)
    ensures
        tokens(header_line(m, d)) == seq![int_repr(m), int_repr(d + 1), "rational"@],
{
    reveal_strlit(" rational");
    reveal_strlit("rational");
    lemma_int_repr_word(m);
    lemma_int_repr_word(d + 1);
    let x = int_repr(m);
    let y = int_repr(d + 1);
    assert(word("rational"@));
    assert(header_line(m, d) =~= (x + seq![' '] + y) + seq![' '] + "rational"@);
    lemma_tokens_space_word(x + seq![' '] + y, "rational"@);
    lemma_tokens_space_word(x, y);
    lemma_tokens_single(x);
    assert(seq![x].push(y).push("rational"@) =~= seq![x, y, "rational"@]);
}

/// A character that is not an upper-case ASCII letter is its own lower case.
proof fn lemma_lower_self(c: char)
    requires
        !('A' <= c && c <= 'Z'),
    ensures
        lower(c) == c,
{
}

/// The first character of a line decides that it is neither a refusal nor
/// `begin` when it differs from `l`, `v` and `b`.
proof fn lemma_skip_line(l: Seq<char>, c: char)
    requires
        l.len() > 0,
        lower(l[0]) == c,
        c != 'l',
        c != 'v',
        c != 'b',
    ensures
        !starts_ci(l, "linearity"@),
        !starts_ci(l, "v-representation"@),
        !eq_ci(l, "begin"@),
{
    reveal_strlit("linearity");
    reveal_strlit("v-representation");
    reveal_strlit("begin");
    if starts_ci(l, "linearity"@) {
        assert(l.take(9)[0] == l[0]);
    }
    if starts_ci(l, "v-representation"@) {
        assert(l.take(16)[0] == l[0]);
    }
}

/// Everything a block needs to be read back.
pub open spec fn block_ok(p: Seq<RawConstraint>, d: int) -> bool {
    &&& rows_of_dim(p, d)
    &&& p.len() * (d + 1) <= usize::MAX
    &&& forall|k: int| 0 <= k < p.len() ==> row_ok(#[trigger] p[k])
}

/// Reading one written block: from its first line to past its `end`.
#[verifier::spinoff_prover]
#[verifier::rlimit(40)]
proof fn lemma_block_step(
    lines: Seq<Seq<char>>,
    li: int,
    i: int,
    d: int,
    p: Seq<RawConstraint>,
    dopt: Option<int>,
    polys: Seq<Seq<(Seq<(int, int)>, (int, int))>>,
)
    requires
        0 <= li,
        i >= 0,
        d >= 1,
        d + 1 <= usize::MAX,
        block_ok(p, d),
        dopt == None::<int> || dopt == Some(d),
        li + block_lines(i, d, p).len() <= lines.len(),
        forall|k: int| 0 <= k < block_lines(i, d, p).len() ==> #[trigger] lines[li + k] == block_lines(i, d, p)[k],
    ensures
        ine_blocks(lines, li, dopt, polys) == ine_blocks(lines, li + block_lines(i, d, p).len(), Some(d), polys.push(poly_vals(p))),
{
    reveal_strlit("polytope_");
    reveal_strlit("H-representation");
    reveal_strlit("begin");
    reveal_strlit("end");
    reveal_strlit("linearity");
    reveal_strlit("v-representation");
    let b = block_lines(i, d, p);
    let m = p.len() as int;
    let n = d + 1;
    assert(b.len() == m + 5);
    // the name line and the representation line are skipped
    assert(lines[li + 0] == b[0]);
    assert(li + 0 == li);
    assert(lines[li][0] == 'p');
    lemma_lower_self('p');
    lemma_skip_line(lines[li], 'p');
    assert(lines[li + 1] == b[1]);
    assert(lines[li + 1][0] == 'H');
    assert(lower('H') == 'h');
    lemma_skip_line(lines[li + 1], 'h');
    // `begin`
    assert(lines[li + 2] == b[2]);
    assert(lines[li + 2] == "begin"@);
    assert(!starts_ci("begin"@, "linearity"@));
    assert(!starts_ci("begin"@, "v-representation"@));
    assert(eq_ci("begin"@, "begin"@)) by {
        assert forall|t: int| 0 <= t < 5 implies lower(#[trigger] "begin"@[t]) == "begin"@[t] by {
            lemma_lower_self("begin"@[t]);
        }
    }
    // the header
    assert(lines[li + 3] == b[3]);
    assert(lines[li + 3] == header_line(m, d));
    lemma_header_tokens(m, d);
    let toks = tokens(lines[li + 3]);
    lemma_int_repr_literal(m);
    lemma_int_repr_literal(n);
    assert(m <= usize::MAX) by (nonlinear_arith)
        requires
            m * n <= usize::MAX,
            n >= 1,
            m >= 0,
    ;
    assert(count_of(toks[0]) == Some(m));
    assert(count_of(toks[1]) == Some(n));
    // the rows
    assert forall|k: int| 0 <= k < p.len() implies #[trigger] lines[(li + 4) + k] == row_line(p[k]) by {
        assert(lines[li + (4 + k)] == b[4 + k]);
        assert(li + (4 + k) == (li + 4) + k);
    }
    lemma_read_rows(lines, li + 4, p, d, 0);
    assert(flat_vals(p, 0) == Seq::<(int, int)>::empty());
    lemma_flat_len(p, d, m);
    lemma_block_rows(p, d);
    // `end`
    assert(lines[li + (4 + m)] == b[4 + m]);
    assert(li + (4 + m) == li + 4 + m);
    assert(lines[li + 4 + m] == "end"@);
    assert(eq_ci("end"@, "end"@)) by {
        assert forall|t: int| 0 <= t < 3 implies lower(#[trigger] "end"@[t]) == "end"@[t] by {
            lemma_lower_self("end"@[t]);
        }
    }
    let flat = flat_vals(p, m);
    assert(read_numbers(lines, (li + 2) + 2, m * n, seq![]) == Some((li + 4 + m, flat)));
    assert(!crate::io::dim_clash(dopt, n - 1));
    assert(ine_blocks(lines, li + 2, dopt, polys) == ine_blocks(lines, li + 4 + m + 1, Some(n - 1), polys.push(block_rows(flat, m, n))));
    assert(ine_blocks(lines, li + 1, dopt, polys) == ine_blocks(lines, li + 2, dopt, polys));
    assert(ine_blocks(lines, li, dopt, polys) == ine_blocks(lines, li + 1, dopt, polys));
}


/// The values of the first `n` polytopes.
pub open spec fn polys_vals(ps: Seq<Vec<RawConstraint>>, n: int) -> Seq<Seq<(Seq<(int, int)>, (int, int))>> {
    Seq::new(n as nat, |i: int| poly_vals(ps[i]@))
}

/// Round trip of the `.ine` format: the text written for polytopes of
/// dimension `d ≥ 1`, read back, gives that dimension and every
/// coefficient's value.  (Blocks must fit the reader's limits: `m·(d+1)`
/// numbers per block within `usize`, and each number's notation within
/// `u32::MAX` characters.)
pub proof fn lemma_ine_round_trip(d: int, ps: Seq<Vec<RawConstraint>>)
    requires
        d >= 1,
        d + 1 <= usize::MAX,
        ps.len() >= 1,
        forall|i: int| 0 <= i < ps.len() ==> block_ok((#[trigger] ps[i])@, d),
    ensures
        ine_blocks(ine_lines(ine_text(d, ps, ps.len() as int)), 0, None, seq![]) == Some((d, polys_vals(ps, ps.len() as int))),
{
    let big = ps.len() as int;
    let lines = all_lines(d, ps, big);
    lemma_text_join(d, ps, big);
    lemma_all_good(d, ps, big);
    lemma_lines_back(lines);
    lemma_read_blocks(d, ps, 0);
    assert(all_lines(d, ps, 0).len() == 0);
    assert(polys_vals(ps, 0) =~= Seq::<Seq<(Seq<(int, int)>, (int, int))>>::empty());
}

/// Reading the blocks from block `n` on gives what reading from the start
/// gives.
proof fn lemma_read_blocks(d: int, ps: Seq<Vec<RawConstraint>>, n: int)
    requires
        d >= 1,
        d + 1 <= usize::MAX,
        ps.len() >= 1,
        forall|i: int| 0 <= i < ps.len() ==> block_ok((#[trigger] ps[i])@, d),
        0 <= n <= ps.len(),
    ensures
        ine_blocks(all_lines(d, ps, ps.len() as int), all_lines(d, ps, n).len() as int, if n == 0 {
            None
        } else {
            Some(d)
        }, polys_vals(ps, n)) == Some((d, polys_vals(ps, ps.len() as int))),
    decreases ps.len() - n,
{
    let big = ps.len() as int;
    let lines = all_lines(d, ps, big);
    if n == big {
        assert(all_lines(d, ps, n).len() == lines.len());
    } else {
        lemma_all_prefix(d, ps, n + 1, big);
        let b = block_lines(n, d, ps[n]@);
        let li = all_lines(d, ps, n).len() as int;
        assert(all_lines(d, ps, n + 1) == all_lines(d, ps, n) + b);
        assert forall|k: int| 0 <= k < b.len() implies #[trigger] lines[li + k] == b[k] by {
            assert(lines[li + k] == all_lines(d, ps, n + 1)[li + k]);
        }
        lemma_block_step(lines, li, n, d, ps[n]@, if n == 0 {
            None
        } else {
            Some(d)
        }, polys_vals(ps, n));
        assert(polys_vals(ps, n).push(poly_vals(ps[n]@)) =~= polys_vals(ps, n + 1));
        lemma_read_blocks(d, ps, n + 1);
    }
}

} // verus!
