//! The lrs/cdd `.ine` H-representation format (several `begin…end` blocks
//! form a union): reading and writing.
use crate::geom::{all_q_wf, RawConstraint};
use crate::num::{q_repr, Q};
use crate::sweep::qv;
use crate::text::{int_repr, is_ws, parse_usize, str_chars, str_trim, string_from_chars, trimmed};
use vstd::prelude::*;

verus! {

/// A parsed input: the dimension and the constraints of each polytope.
pub struct Input {
    pub d: usize,
    pub polytopes: Vec<Vec<RawConstraint>>,
}

impl Input {
    /// Every constraint is well formed and has `d` coefficients.
    pub open spec fn wf(&self) -> bool {
        forall|p: int, c: int|
            0 <= p < self.polytopes@.len() && 0 <= c < self.polytopes@[p]@.len() ==> (#[trigger] self.polytopes@[p]@[c]).wf()
                && self.polytopes@[p]@[c].a@.len() == self.d
    }
}

/// `char::is_whitespace`.
fn is_ws_char(c: char) -> (r: bool)
    ensures
        r == is_ws(c),
{
    c == ' ' || ('\t' <= c && c <= '\r') || c == '\u{85}' || c == '\u{a0}' || c == '\u{1680}' || ('\u{2000}' <= c && c
        <= '\u{200a}') || c == '\u{2028}' || c == '\u{2029}' || c == '\u{202f}' || c == '\u{205f}' || c == '\u{3000}'
}

/// ASCII lower case of one character.
pub open spec fn lower(c: char) -> char {
    if 'A' <= c && c <= 'Z' {
        ((c as u32) + 32) as char
    } else {
        c
    }
}

/// `s` equals the lower-case pattern `p` up to ASCII case.
pub open spec fn eq_ci(s: Seq<char>, p: Seq<char>) -> bool {
    s.len() == p.len() && forall|i: int| 0 <= i < s.len() ==> lower(#[trigger] s[i]) == p[i]
}

/// `s` begins with the lower-case pattern `p` up to ASCII case.
pub open spec fn starts_ci(s: Seq<char>, p: Seq<char>) -> bool {
    p.len() <= s.len() && eq_ci(s.take(p.len() as int), p)
}

/// One character equals the lower-case character `p` up to ASCII case.
fn char_eq_ci(c: char, p: char) -> (r: bool)
    ensures
        r == (lower(c) == p),
{
    if 'A' <= c && c <= 'Z' {
        let u = c as u32 + 32;
        u == p as u32
    } else {
        c == p
    }
}

/// Prefix of `s` matched against the lower-case pattern `p`.
fn starts_with_ci(s: &Vec<char>, p: &str) -> (r: bool)
    ensures
        r == starts_ci(s@, p@),
{
    let pv = str_chars(p);
    if pv.len() > s.len() {
        return false;
    }
    let mut i: usize = 0;
    while i < pv.len()
        invariant
            pv@ == p@,
            pv@.len() <= s@.len(),
            i <= pv@.len(),
            forall|k: int| 0 <= k < i ==> lower(#[trigger] s@[k]) == pv@[k],
        decreases pv@.len() - i,
    {
        if !char_eq_ci(s[i], pv[i]) {
            proof {
                assert(s@.take(pv@.len() as int)[i as int] == s@[i as int]);
            }
            return false;
        }
        i = i + 1;
    }
    proof {
        assert forall|k: int| 0 <= k < pv@.len() implies lower(#[trigger] s@.take(pv@.len() as int)[k]) == pv@[k] by {
            assert(s@.take(pv@.len() as int)[k] == s@[k]);
        }
    }
    true
}

/// Whole of `s` matched against the lower-case pattern `p`.
fn equals_ci(s: &Vec<char>, p: &str) -> (r: bool)
    ensures
        r == eq_ci(s@, p@),
{
    let pv = str_chars(p);
    if pv.len() != s.len() {
        return false;
    }
    let r = starts_with_ci(s, p);
    proof {
        assert(s@.take(s@.len() as int) =~= s@);
    }
    r
}

/// A line that carries content: not empty, not a `*` comment.
pub open spec fn content_line(l: Seq<char>) -> bool {
    l.len() > 0 && l[0] != '*'
}

/// The trimmed content lines of the text, in order: the text is cut at
/// each `\n`, every piece trimmed, and empty pieces and `*` comments
/// dropped.
pub open spec fn ine_lines(s: Seq<char>) -> Seq<Seq<char>>
    decreases s.len(),
{
    if s.len() == 0 {
        seq![]
    } else {
        let k = crate::text::first_of(s, '\n', '\n');
        let t = trimmed(s.take(k));
        let rest = if k >= s.len() {
            Seq::<Seq<char>>::empty()
        } else {
            proof {
                crate::text::lemma_first_of(s, '\n', '\n');
            }
            ine_lines(s.skip(k + 1))
        };
        if content_line(t) {
            seq![t] + rest
        } else {
            rest
        }
    }
}

/// Views of a vector of character vectors.
pub open spec fn views(v: Seq<Vec<char>>) -> Seq<Seq<char>> {
    v.map_values(|x: Vec<char>| x@)
}

/// Trimmed copy of a line.
fn trim_line(v: &Vec<char>) -> (r: Vec<char>)
    ensures
        r@ == trimmed(v@),
{
    let s = string_from_chars(v.as_slice());
    let t = str_trim(s.as_str());
    str_chars(t)
}

/// The trimmed content lines of the text.
fn content_lines(text: &str) -> (r: Vec<Vec<char>>)
    ensures
        views(r@) == ine_lines(text@),
{
    let v = str_chars(text);
    let mut out: Vec<Vec<char>> = Vec::new();
    let mut start: usize = 0;
    proof {
        assert(v@.skip(0) =~= v@);
    }
    while start < v.len()
        invariant
            v@ == text@,
            start <= v@.len(),
            views(out@) + ine_lines(v@.skip(start as int)) == ine_lines(text@),
        decreases v@.len() - start,
    {
        let rest = crate::text::sub_chars(&v, start, v.len());
        let k = crate::text::find_first(&rest, '\n', '\n');
        proof {
            crate::text::lemma_first_of(rest@, '\n', '\n');
            assert(rest@ =~= v@.skip(start as int));
        }
        let line = crate::text::sub_chars(&rest, 0, k);
        let t = trim_line(&line);
        let ghost before = out@;
        let ghost tail = if k < rest@.len() {
            ine_lines(rest@.skip(k + 1))
        } else {
            Seq::<Seq<char>>::empty()
        };
        proof {
            assert(line@ =~= rest@.take(k as int));
            assert(ine_lines(rest@) == if content_line(t@) {
                seq![t@] + tail
            } else {
                tail
            });
        }
        if t.len() > 0 && t[0] != '*' {
            out.push(t);
            proof {
                assert(views(out@) =~= views(before) + seq![t@]);
            }
        }
        if k < rest.len() {
            proof {
                assert(rest@.skip(k + 1) =~= v@.skip(start + k + 1));
            }
            start = start + k + 1;
        } else {
            proof {
                assert(v@.skip(v@.len() as int).len() == 0);
            }
            start = v.len();
        }
    }
    proof {
        assert(v@.skip(start as int).len() == 0);
        assert(views(out@) + Seq::<Seq<char>>::empty() =~= views(out@));
    }
    out
}

/// The whitespace-separated tokens of `s`, in order.
pub open spec fn tokens(s: Seq<char>) -> Seq<Seq<char>>
    decreases s.len(),
{
    if s.len() == 0 {
        seq![]
    } else {
        let p = s.drop_last();
        let c = s.last();
        let t = tokens(p);
        if is_ws(c) {
            t
        } else if p.len() > 0 && !is_ws(p.last()) && t.len() > 0 {
            t.update(t.len() - 1, t.last().push(c))
        } else {
            t.push(seq![c])
        }
    }
}

/// The whitespace-separated tokens of a line.
fn split_ws(v: &Vec<char>) -> (r: Vec<Vec<char>>)
    ensures
        views(r@) == tokens(v@),
{
    let mut out: Vec<Vec<char>> = Vec::new();
    let mut cur: Vec<char> = Vec::new();
    let mut i: usize = 0;
    while i < v.len()
        invariant
            i <= v@.len(),
            cur@.len() > 0 ==> i > 0 && !is_ws(v@[i - 1]),
            i > 0 && !is_ws(v@[i - 1]) ==> cur@.len() > 0,
            tokens(v@.take(i as int)) == if cur@.len() > 0 {
                views(out@).push(cur@)
            } else {
                views(out@)
            },
        decreases v@.len() - i,
    {
        let ghost before = v@.take(i as int);
        proof {
            assert(v@.take(i + 1).drop_last() =~= before);
            assert(v@.take(i + 1).last() == v@[i as int]);
        }
        if is_ws_char(v[i]) {
            if cur.len() > 0 {
                let ghost o0 = views(out@);
                out.push(cur);
                cur = Vec::new();
                proof {
                    assert(views(out@) =~= o0.push(out@[out@.len() - 1]@));
                }
            }
        } else {
            let ghost c0 = cur@;
            cur.push(v[i]);
            proof {
                if c0.len() > 0 {
                    let t = tokens(before);
                    assert(t.len() > 0);
                    assert(views(out@).push(cur@) =~= t.update(t.len() - 1, t.last().push(v@[i as int])));
                } else {
                    assert(cur@ =~= seq![v@[i as int]]);
                }
            }
        }
        i = i + 1;
    }
    proof {
        assert(v@.take(v@.len() as int) =~= v@);
    }
    if cur.len() > 0 {
        let ghost o0 = views(out@);
        out.push(cur);
        proof {
            assert(views(out@) =~= o0.push(out@[out@.len() - 1]@));
        }
    }
    out
}

/// A token read as a count: a decimal `usize` literal, without a sign or
/// with a leading `+`.
pub open spec fn count_of(t: Seq<char>) -> Option<int> {
    match crate::text::std_int_literal(t) {
        Some(v) => if 0 <= v <= usize::MAX && t[0] != '-' {
            Some(v)
        } else {
            None
        },
        None => None,
    }
}

/// A token read as a rational `(numerator, denominator)`.
pub open spec fn number_of(t: Seq<char>) -> Option<(int, int)> {
    if t.len() > 0xFFFF_FFFF {
        None
    } else {
        crate::num::q_literal(t)
    }
}

/// All tokens read as rationals, or `None` if one is not a number.
pub open spec fn numbers_of(ts: Seq<Seq<char>>) -> Option<Seq<(int, int)>>
    decreases ts.len(),
{
    if ts.len() == 0 {
        Some(seq![])
    } else {
        match numbers_of(ts.drop_last()) {
            Some(r) => match number_of(ts.last()) {
                Some(x) => Some(r.push(x)),
                None => None,
            },
            None => None,
        }
    }
}

/// The numbers of a block, read line by line from `li` until at least
/// `total` are there: the index of the next line and the numbers, or `None`
/// if the lines run out, a line is `end`, or a token is not a number.
pub open spec fn read_numbers(lines: Seq<Seq<char>>, li: int, total: int, acc: Seq<(int, int)>) -> Option<(int, Seq<(int, int)>)>
    decreases lines.len() - li,
{
    if acc.len() >= total {
        Some((li, acc))
    } else if li < 0 || li >= lines.len() {
        None
    } else if eq_ci(lines[li], "end"@) {
        None
    } else {
        match numbers_of(tokens(lines[li])) {
            Some(vals) => read_numbers(lines, li + 1, total, acc + vals),
            None => None,
        }
    }
}

/// The line index `read_numbers` stops at is not before where it started.
pub proof fn lemma_read_numbers_index(lines: Seq<Seq<char>>, li: int, total: int, acc: Seq<(int, int)>)
    ensures
        read_numbers(lines, li, total, acc) matches Some((lj, _)) ==> lj >= li,
    decreases lines.len() - li,
{
    if acc.len() < total && 0 <= li < lines.len() && !eq_ci(lines[li], "end"@) {
        if let Some(vals) = numbers_of(tokens(lines[li])) {
            lemma_read_numbers_index(lines, li + 1, total, acc + vals);
        }
    }
}

/// The rows of a block of `m` rows of `n` numbers `b a_1 … a_d`, as
/// `((−a_1, …, −a_d), b)`.
pub open spec fn block_rows(nums: Seq<(int, int)>, m: int, n: int) -> Seq<(Seq<(int, int)>, (int, int))> {
    Seq::new(m as nat, |i: int| (Seq::new((n - 1) as nat, |j: int| (-nums[i * n + j + 1].0, nums[i * n + j + 1].1)), nums[i * n]))
}

/// A block of dimension `dd` cannot follow blocks of dimension `d`.
pub open spec fn dim_clash(d: Option<int>, dd: int) -> bool {
    match d {
        Some(x) => x != dd,
        None => false,
    }
}

/// The `.ine` content lines from `li` on, after blocks `polys` of
/// dimension `d`: the dimension and the blocks of the whole text, or `None`
/// for a text that is refused.  A line starting with `linearity` or
/// `V-representation` refuses the text; lines other than `begin` are
/// skipped; `begin` is followed by a header `m n …` (counts, `n ≥ 2`), by
/// the `m·n` numbers of the rows, and by `end`.  All blocks share one
/// dimension `n − 1`, and at least one block is needed.
pub open spec fn ine_blocks(
    lines: Seq<Seq<char>>,
    li: int,
    d: Option<int>,
    polys: Seq<Seq<(Seq<(int, int)>, (int, int))>>,
) -> Option<(int, Seq<Seq<(Seq<(int, int)>, (int, int))>>)>
    decreases lines.len() - li,
{
    if li < 0 || li >= lines.len() {
        match d {
            Some(dd) => Some((dd, polys)),
            None => None,
        }
    } else {
        let l = lines[li];
        if starts_ci(l, "linearity"@) || starts_ci(l, "v-representation"@) {
            None
        } else if !eq_ci(l, "begin"@) {
            ine_blocks(lines, li + 1, d, polys)
        } else if li + 1 >= lines.len() {
            None
        } else {
            let toks = tokens(lines[li + 1]);
            if toks.len() < 2 {
                None
            } else {
                match (count_of(toks[0]), count_of(toks[1])) {
                    (Some(m), Some(n)) => if n < 2 || dim_clash(d, n - 1) || m * n > usize::MAX {
                        None
                    } else {
                        match read_numbers(lines, li + 2, m * n, seq![]) {
                            Some((lj, nums)) => if nums.len() != m * n || lj >= lines.len() || !eq_ci(lines[lj], "end"@) {
                                None
                            } else {
                                proof {
                                    lemma_read_numbers_index(lines, li + 2, m * n, seq![]);
                                }
                                ine_blocks(lines, lj + 1, Some(n - 1), polys.push(block_rows(nums, m, n)))
                            },
                            None => None,
                        }
                    },
                    _ => None,
                }
            }
        }
    }
}

/// The dimension of a parse state.
pub open spec fn dim_of(d: Option<usize>) -> Option<int> {
    match d {
        Some(x) => Some(x as int),
        None => None,
    }
}

/// Rational values equal to the parsed pairs, row by row.
pub open spec fn rows_match(c: Seq<RawConstraint>, rows: Seq<(Seq<(int, int)>, (int, int))>) -> bool {
    &&& c.len() == rows.len()
    &&& forall|i: int|
        0 <= i < c.len() ==> (#[trigger] c[i]).a@.len() == rows[i].0.len() && crate::sweep::equiv(qv(c[i].b), rows[i].1)
            && forall|k: int| 0 <= k < c[i].a@.len() ==> crate::sweep::equiv(qv(#[trigger] c[i].a@[k]), rows[i].0[k])
}

/// Blocks of raw constraints holding the parsed values.
pub open spec fn blocks_match(ps: Seq<Vec<RawConstraint>>, blocks: Seq<Seq<(Seq<(int, int)>, (int, int))>>) -> bool {
    &&& ps.len() == blocks.len()
    &&& forall|p: int| 0 <= p < ps.len() ==> rows_match((#[trigger] ps[p])@, blocks[p])
}

/// `inp` holds the dimension and the blocks of a successful parse.
pub open spec fn parsed_as(inp: Input, res: Option<(int, Seq<Seq<(Seq<(int, int)>, (int, int))>>)>) -> bool {
    match res {
        Some((dd, blocks)) => inp.d == dd && blocks_match(inp.polytopes@, blocks),
        None => false,
    }
}

/// A token read as a count.
fn parse_count(t: &Vec<char>) -> (r: Option<usize>)
    ensures
        r matches Some(x) ==> count_of(t@) == Some(x as int),
        r is None ==> count_of(t@) is None,
{
    let s = string_from_chars(t.as_slice());
    parse_usize(s.as_str())
}

/// A token read as a rational.
fn parse_q(t: &Vec<char>) -> (r: Option<Q>)
    ensures
        r is Some <==> number_of(t@) is Some,
        r matches Some(q) ==> q.wf() && (number_of(t@) matches Some(v) && crate::sweep::equiv(qv(q), v)),
{
    if t.len() > 0xFFFF_FFFF {
        return None;
    }
    let s = string_from_chars(t.as_slice());
    Q::parse(s.as_str())
}

/// A failing prefix makes the whole token list fail.
proof fn lemma_numbers_prefix_none(ts: Seq<Seq<char>>, k: int)
    requires
        0 <= k <= ts.len(),
        numbers_of(ts.take(k)) is None,
    ensures
        numbers_of(ts) is None,
    decreases ts.len() - k,
{
    if k < ts.len() {
        assert(ts.take(k + 1).drop_last() =~= ts.take(k));
        lemma_numbers_prefix_none(ts, k + 1);
    } else {
        assert(ts.take(k) =~= ts);
    }
}

/// Message for a malformed header.
/// Trusted: the characters collected into a `String`, and std `format!`,
/// which writes the literal pieces with that text between them.
#[verifier::external_body]
fn msg_header(h: &[char]) -> (r: String)
    ensures
        r@ == "bad header line '"@ + h@ + "'"@,
{
    let s: String = h.iter().collect();
    format!("bad header line '{s}'")
}

/// Message for a malformed count.
/// Trusted: the characters collected into a `String`, and std `format!`,
/// which writes the literal pieces with the two texts between them.
#[verifier::external_body]
fn msg_count(what: &str, t: &[char]) -> (r: String)
    ensures
        r@ == "bad "@ + what@ + " count '"@ + t@ + "'"@,
{
    let s: String = t.iter().collect();
    format!("bad {what} count '{s}'")
}

/// Message for blocks of different dimension.
/// Trusted: std `format!`, which writes the literal pieces and the numbers
/// in decimal (`usize`'s `Display`) between them.
#[verifier::external_body]
fn msg_dimension(prev: usize, dd: usize) -> (r: String)
    ensures
        r@ == "dimension mismatch: "@ + crate::text::int_repr(prev as int) + " vs "@ + crate::text::int_repr(dd as int),
{
    format!("dimension mismatch: {prev} vs {dd}")
}

/// Message for a block cut short.
/// Trusted: std `format!`, which writes the literal pieces and the numbers
/// in decimal (`usize`'s `Display`) between them.
#[verifier::external_body]
fn msg_short(got: usize, want: usize) -> (r: String)
    ensures
        r@ == "block ended after "@ + crate::text::int_repr(got as int) + " of "@ + crate::text::int_repr(want as int) + " numbers"@,
{
    format!("block ended after {got} of {want} numbers")
}

/// Message for a malformed number.
/// Trusted: the characters collected into a `String`, and std `format!`,
/// which writes the literal pieces with that text between them.
#[verifier::external_body]
fn msg_number(t: &[char]) -> (r: String)
    ensures
        r@ == "bad number '"@ + t@ + "'"@,
{
    let s: String = t.iter().collect();
    format!("bad number '{s}'")
}

/// Normalised rationals holding the parsed values, one for one.
pub open spec fn nums_match(nums: Seq<Q>, g: Seq<(int, int)>) -> bool {
    &&& nums.len() == g.len()
    &&& forall|k: int| 0 <= k < nums.len() ==> (#[trigger] nums[k]).wf() && crate::sweep::equiv(qv(nums[k]), g[k])
}

/// The numbers of a `read_numbers` result (empty when it failed).
pub open spec fn numbers_part(res: Option<(int, Seq<(int, int)>)>) -> Seq<(int, int)> {
    match res {
        Some((_, g)) => g,
        None => seq![],
    }
}

/// The result of `read_numbers` stops at `lj` with numbers that `nums` holds.
pub open spec fn numbers_read_as(res: Option<(int, Seq<(int, int)>)>, lj: int, nums: Seq<Q>) -> bool {
    match res {
        Some((l, g)) => l == lj && nums_match(nums, g),
        None => false,
    }
}

/// Reads the numbers of one block, from line `start` on, until there are
/// at least `total`.
fn read_block_numbers(lines: &Vec<Vec<char>>, start: usize, total: usize) -> (r: Result<(usize, Vec<Q>), String>)
    requires
        start <= lines@.len(),
    ensures
        r matches Ok((lj, nums)) ==> start <= lj <= lines@.len() && numbers_read_as(
            read_numbers(views(lines@), start as int, total as int, seq![]),
            lj as int,
            nums@,
        ),
        r is Err ==> read_numbers(views(lines@), start as int, total as int, seq![]) is None,
{
    let ghost ls = views(lines@);
    let mut li = start;
    let mut nums: Vec<Q> = Vec::new();
    let ghost mut g: Seq<(int, int)> = seq![];
    while nums.len() < total
        invariant
            ls == views(lines@),
            start <= li <= lines@.len(),
            read_numbers(ls, li as int, total as int, g) == read_numbers(ls, start as int, total as int, seq![]),
            nums_match(nums@, g),
        decreases lines@.len() - li,
    {
        if li >= lines.len() {
            return Err("unexpected end inside block".to_owned());
        }
        let l = &lines[li];
        proof {
            assert(ls[li as int] == l@);
        }
        if equals_ci(l, "end") {
            return Err(msg_short(nums.len(), total));
        }
        let toks = split_ws(l);
        let ghost tv = views(toks@);
        let ghost mut gv: Seq<(int, int)> = seq![];
        proof {
            assert(tv == tokens(ls[li as int]));
            assert(eq_ci(l@, "end"@) == eq_ci(ls[li as int], "end"@));
        }
        let ghost n0 = nums@;
        proof {
            assert(tv.take(0) =~= Seq::<Seq<char>>::empty());
        }
        let mut t: usize = 0;
        while t < toks.len()
            invariant
                tv == views(toks@),
                tv == tokens(ls[li as int]),
                ls == views(lines@),
                li < lines@.len(),
                !eq_ci(ls[li as int], "end"@),
                g.len() < total,
                read_numbers(ls, li as int, total as int, g) == read_numbers(ls, start as int, total as int, seq![]),
                t <= toks@.len(),
                numbers_of(tv.take(t as int)) == Some(gv),
                nums@ == n0 + nums@.subrange(n0.len() as int, nums@.len() as int),
                nums_match(n0, g),
                nums_match(nums@, g + gv),
            decreases toks@.len() - t,
        {
            proof {
                assert(tv.take(t + 1).drop_last() =~= tv.take(t as int));
                assert(tv.take(t + 1).last() == toks@[t as int]@);
            }
            match parse_q(&toks[t]) {
                Some(q) => {
                    let ghost v = number_of(toks@[t as int]@)->0;
                    let ghost nb = nums@;
                    nums.push(q);
                    proof {
                        gv = gv.push(v);
                        assert(g + gv =~= (g + gv.drop_last()).push(v));
                        assert(nums@ =~= nb.push(q));
                        assert(nums@ =~= n0 + nums@.subrange(n0.len() as int, nums@.len() as int));
                    }
                },
                None => {
                    proof {
                        lemma_numbers_prefix_none(tv, t + 1);
                        assert(read_numbers(ls, li as int, total as int, g) is None);
                    }
                    return Err(msg_number(toks[t].as_slice()));
                },
            }
            t = t + 1;
        }
        proof {
            assert(tv.take(toks@.len() as int) =~= tv);
            assert(tv == tokens(ls[li as int]));
            assert(read_numbers(ls, li as int, total as int, g) == read_numbers(ls, li + 1, total as int, g + gv));
            g = g + gv;
        }
        li = li + 1;
        if nums.len() < total && li >= lines.len() {
            return Err("unexpected end inside block".to_owned());
        }
    }
    Ok((li, nums))
}

/// The constraint rows of a block: row `i` is `b + a·x ≥ 0`, stored as
/// `(−a)·x ≤ b`.
fn block_constraints(nums: &Vec<Q>, m: usize, n: usize, Ghost(g): Ghost<Seq<(int, int)>>) -> (r: Vec<RawConstraint>)
    requires
        n >= 2,
        m * n <= usize::MAX,
        nums@.len() == m * n,
        nums_match(nums@, g),
    ensures
        rows_match(r@, block_rows(g, m as int, n as int)),
        forall|c: int| 0 <= c < r@.len() ==> (#[trigger] r@[c]).wf() && r@[c].a@.len() == n - 1,
{
    let mut cons: Vec<RawConstraint> = Vec::new();
    let ghost rows = block_rows(g, m as int, n as int);
    let mut i: usize = 0;
    while i < m
        invariant
            i <= m,
            n >= 2,
            m * n <= usize::MAX,
            nums@.len() == m * n,
            nums_match(nums@, g),
            rows == block_rows(g, m as int, n as int),
            cons@.len() == i,
            forall|c: int| 0 <= c < i ==> (#[trigger] cons@[c]).wf() && cons@[c].a@.len() == n - 1,
            forall|c: int|
                0 <= c < i ==> (#[trigger] cons@[c]).a@.len() == rows[c].0.len() && crate::sweep::equiv(qv(cons@[c].b), rows[c].1)
                    && forall|k: int| 0 <= k < cons@[c].a@.len() ==> crate::sweep::equiv(qv(#[trigger] cons@[c].a@[k]), rows[c].0[k]),
        decreases m - i,
    {
        proof {
            assert((i + 1) * n <= m * n) by (nonlinear_arith)
                requires
                    i < m,
                    n >= 0,
            ;
            assert((i + 1) * n == i * n + n) by (nonlinear_arith);
        }
        let base = i * n;
        let mut a: Vec<Q> = Vec::new();
        let mut j: usize = 1;
        while j < n
            invariant
                1 <= j <= n,
                m * n <= usize::MAX,
                base + n <= nums@.len(),
                nums@.len() == m * n,
                base == i * n,
                i < m,
                nums_match(nums@, g),
                rows == block_rows(g, m as int, n as int),
                a@.len() == j - 1,
                all_q_wf(a@),
                forall|k: int| 0 <= k < j - 1 ==> crate::sweep::equiv(qv(#[trigger] a@[k]), rows[i as int].0[k]),
            decreases n - j,
        {
            proof {
                assert(nums@[base + j].wf());
                assert(crate::sweep::equiv(qv(nums@[base + j]), g[base + j]));
            }
            let x = nums[base + j].neg();
            let ghost a0 = a@;
            a.push(x);
            proof {
                assert(rows[i as int].0[j - 1] == (-g[i * n + (j - 1) + 1].0, g[i * n + (j - 1) + 1].1));
                assert(i * n + (j - 1) + 1 == base + j);
                let (xn, xd, gn, gd) = (nums@[base + j].num@, nums@[base + j].den@, g[base + j].0, g[base + j].1);
                assert((-xn) * gd == (-gn) * xd) by (nonlinear_arith)
                    requires
                        xn * gd == gn * xd,
                ;
                assert forall|k: int| 0 <= k < j implies crate::sweep::equiv(qv(#[trigger] a@[k]), rows[i as int].0[k]) by {
                    if k < j - 1 {
                        assert(a@[k] == a0[k]);
                    }
                }
            }
            j = j + 1;
        }
        proof {
            assert(nums@[base as int].wf());
            assert(rows[i as int].1 == g[i * n]);
        }
        let ghost c0 = cons@;
        cons.push(RawConstraint { a, b: nums[base].clone() });
        proof {
            assert forall|c: int|
                0 <= c < i + 1 implies (#[trigger] cons@[c]).a@.len() == rows[c].0.len() && crate::sweep::equiv(qv(cons@[c].b), rows[c].1)
                    && forall|k: int| 0 <= k < cons@[c].a@.len() ==> crate::sweep::equiv(qv(#[trigger] cons@[c].a@[k]), rows[c].0[k]) by {
                if c < i {
                    assert(cons@[c] == c0[c]);
                }
            }
        }
        i = i + 1;
    }
    cons
}

/// Reads an `.ine` text: every `begin … end` block is one polytope whose
/// rows `b a_1 … a_d` stand for `b + a·x ≥ 0`, stored as `(−a)·x ≤ b`.
pub fn parse_ine(text: &str) -> (r: Result<Input, String>)
    ensures
        r is Ok <==> ine_blocks(ine_lines(text@), 0, None, seq![]) is Some,
        r matches Ok(inp) ==> inp.wf() && inp.d >= 1 && parsed_as(inp, ine_blocks(ine_lines(text@), 0, None, seq![])),
{
    let lines = content_lines(text);
    let ghost ls = views(lines@);
    let ghost target = ine_blocks(ls, 0, None, seq![]);
    let mut polytopes: Vec<Vec<RawConstraint>> = Vec::new();
    let ghost mut gp: Seq<Seq<(Seq<(int, int)>, (int, int))>> = seq![];
    let mut d: Option<usize> = None;
    let mut li: usize = 0;
    while li < lines.len()
        invariant
            ls == views(lines@),
            ls == ine_lines(text@),
            target == ine_blocks(ls, 0, None, seq![]),
            li <= lines@.len(),
            ine_blocks(ls, li as int, dim_of(d), gp) == target,
            blocks_match(polytopes@, gp),
            d matches Some(dd) ==> dd >= 1,
            d is None ==> polytopes@.len() == 0,
            forall|p: int, c: int|
                0 <= p < polytopes@.len() && 0 <= c < polytopes@[p]@.len() ==> (#[trigger] polytopes@[p]@[c]).wf()
                    && (d matches Some(dd) && polytopes@[p]@[c].a@.len() == dd),
        decreases lines@.len() - li,
    {
        let lb = li;
        let line = &lines[li];
        proof {
            assert(ls[lb as int] == line@);
        }
        li = li + 1;
        if starts_with_ci(line, "linearity") {
            return Err("linearity rows are not supported (polytopes must be full-dimensional)".to_owned());
        }
        if starts_with_ci(line, "v-representation") {
            return Err("V-representations are not supported; give an H-representation".to_owned());
        }
        if !equals_ci(line, "begin") {
            continue;
        }
        if li >= lines.len() {
            return Err("unexpected end after 'begin'".to_owned());
        }
        let header = &lines[li];
        proof {
            assert(ls[li as int] == header@);
        }
        li = li + 1;
        let toks = split_ws(header);
        proof {
            assert(views(toks@) == tokens(ls[lb + 1]));
        }
        if toks.len() < 2 {
            return Err(msg_header(header.as_slice()));
        }
        proof {
            assert(views(toks@)[0] == toks@[0]@ && views(toks@)[1] == toks@[1]@);
        }
        let m = match parse_count(&toks[0]) {
            Some(m) => m,
            None => {
                return Err(msg_count("row", toks[0].as_slice()));
            },
        };
        let n = match parse_count(&toks[1]) {
            Some(n) => n,
            None => {
                return Err(msg_count("column", toks[1].as_slice()));
            },
        };
        if n < 2 {
            return Err("need at least 2 columns (b and one coordinate)".to_owned());
        }
        let dd = n - 1;
        if let Some(prev) = d {
            if prev != dd {
                return Err(msg_dimension(prev, dd));
            }
        }
        let total = match m.checked_mul(n) {
            Some(t) => t,
            None => {
                return Err("block is too large".to_owned());
            },
        };
        let (lj, nums) = match read_block_numbers(&lines, li, total) {
            Ok(x) => x,
            Err(e) => {
                return Err(e);
            },
        };
        let ghost g = numbers_part(read_numbers(ls, li as int, total as int, seq![]));
        li = lj;
        if nums.len() != total {
            return Err("row length mismatch".to_owned());
        }
        if li >= lines.len() || !equals_ci(&lines[li], "end") {
            proof {
                if li < lines@.len() {
                    assert(ls[li as int] == lines@[li as int]@);
                }
            }
            return Err("expected 'end'".to_owned());
        }
        proof {
            assert(ls[li as int] == lines@[li as int]@);
        }
        li = li + 1;
        let cons = block_constraints(&nums, m, n, Ghost(g));
        let ghost p0 = polytopes@;
        polytopes.push(cons);
        d = Some(dd);
        proof {
            let rows = block_rows(g, m as int, n as int);
            gp = gp.push(rows);
            assert forall|p: int| 0 <= p < polytopes@.len() implies rows_match((#[trigger] polytopes@[p])@, gp[p]) by {
                if p < p0.len() {
                    assert(polytopes@[p] == p0[p]);
                }
            }
            assert forall|p: int, c: int|
                0 <= p < polytopes@.len() && 0 <= c < polytopes@[p]@.len() implies (#[trigger] polytopes@[p]@[c]).wf()
                    && (d matches Some(dd) && polytopes@[p]@[c].a@.len() == dd) by {
                if p < p0.len() {
                    assert(polytopes@[p] == p0[p]);
                }
            }
        }
    }
    match d {
        Some(dd) => Ok(Input { d: dd, polytopes }),
        None => Err("no 'begin' block found".to_owned()),
    }
}

/// The `.ine` text of one constraint row `b −a_1 … −a_d`.
pub open spec fn row_text(c: RawConstraint) -> Seq<char> {
    q_repr(c.b.num@, c.b.den@) + neg_entries(c.a@) + seq!['\n']
}

/// ` −a_1 … −a_k` for the entries given.
pub open spec fn neg_entries(a: Seq<Q>) -> Seq<char>
    decreases a.len(),
{
    if a.len() == 0 {
        seq![]
    } else {
        neg_entries(a.drop_last()) + seq![' '] + q_repr(-a.last().num@, a.last().den@)
    }
}

/// The rows of a block.
pub open spec fn rows_text(p: Seq<RawConstraint>) -> Seq<char>
    decreases p.len(),
{
    if p.len() == 0 {
        seq![]
    } else {
        rows_text(p.drop_last()) + row_text(p.last())
    }
}

/// One block of the `.ine` text, for polytope number `i`.
pub open spec fn block_text(i: int, d: int, p: Seq<RawConstraint>) -> Seq<char> {
    "polytope_"@ + int_repr(i) + "\nH-representation\nbegin\n"@ + int_repr(p.len() as int) + seq![' '] + int_repr(
        d + 1,
    ) + " rational\n"@ + rows_text(p) + "end\n"@
}

/// The blocks of the first `n` polytopes.
pub open spec fn ine_text(d: int, ps: Seq<Vec<RawConstraint>>, n: int) -> Seq<char>
    decreases n,
{
    if n <= 0 {
        seq![]
    } else {
        ine_text(d, ps, n - 1) + block_text(n - 1, d, ps[n - 1]@)
    }
}

/// Appends the characters of `s`.
fn push_str_chars(v: &mut Vec<char>, s: &str)
    ensures
        final(v)@ == old(v)@ + s@,
{
    let w = str_chars(s);
    let mut i: usize = 0;
    while i < w.len()
        invariant
            i <= w@.len(),
            w@ == s@,
            v@ == old(v)@ + w@.take(i as int),
        decreases w@.len() - i,
    {
        v.push(w[i]);
        i = i + 1;
        proof {
            assert(w@.take(i as int) =~= w@.take(i - 1).push(w@[i - 1]));
        }
    }
    proof {
        assert(w@.take(w@.len() as int) =~= w@);
    }
}

/// Appends the block of polytope number `i`.
fn push_block(v: &mut Vec<char>, i: usize, d: usize, p: &Vec<RawConstraint>)
    requires
        d < usize::MAX,
        forall|c: int| 0 <= c < p@.len() ==> (#[trigger] p@[c]).wf(),
    ensures
        final(v)@ == old(v)@ + block_text(i as int, d as int, p@),
{
    let ghost v0 = v@;
    push_str_chars(v, "polytope_");
    push_str_chars(v, crate::text::usize_to_string(i).as_str());
    push_str_chars(v, "\nH-representation\nbegin\n");
    push_str_chars(v, crate::text::usize_to_string(p.len()).as_str());
    v.push(' ');
    push_str_chars(v, crate::text::usize_to_string(d + 1).as_str());
    push_str_chars(v, " rational\n");
    let ghost head = v@;
    let mut k: usize = 0;
    while k < p.len()
        invariant
            k <= p@.len(),
            forall|c: int| 0 <= c < p@.len() ==> (#[trigger] p@[c]).wf(),
            v@ == head + rows_text(p@.take(k as int)),
        decreases p@.len() - k,
    {
        let c = &p[k];
        proof {
            assert(c.wf());
        }
        let ghost v1 = v@;
        push_str_chars(v, c.b.to_string().as_str());
        let mut j: usize = 0;
        while j < c.a.len()
            invariant
                j <= c.a@.len(),
                c.wf(),
                v@ == v1 + q_repr(c.b.num@, c.b.den@) + neg_entries(c.a@.take(j as int)),
            decreases c.a@.len() - j,
        {
            v.push(' ');
            proof {
                assert(c.a@[j as int].wf());
            }
            push_str_chars(v, c.a[j].neg().to_string().as_str());
            proof {
                assert(c.a@.take(j + 1).drop_last() =~= c.a@.take(j as int));
            }
            j = j + 1;
        }
        v.push('\n');
        proof {
            assert(c.a@.take(c.a@.len() as int) =~= c.a@);
            assert(p@.take(k + 1).drop_last() =~= p@.take(k as int));
            assert(v@ =~= head + rows_text(p@.take(k + 1)));
        }
        k = k + 1;
    }
    push_str_chars(v, "end\n");
    proof {
        assert(p@.take(p@.len() as int) =~= p@);
        assert(v@ =~= v0 + block_text(i as int, d as int, p@));
    }
}

/// Writes an `.ine` file with one block per polytope.
pub fn to_ine(d: usize, polys: &[Vec<RawConstraint>]) -> (r: String)
    requires
        d < usize::MAX,
        forall|p: int, c: int|
            0 <= p < polys@.len() && 0 <= c < polys@[p]@.len() ==> (#[trigger] polys@[p]@[c]).wf(),
    ensures
        r@ == ine_text(d as int, polys@, polys@.len() as int),
{
    let mut v: Vec<char> = Vec::new();
    let mut i: usize = 0;
    while i < polys.len()
        invariant
            i <= polys@.len(),
            d < usize::MAX,
            forall|p: int, c: int|
                0 <= p < polys@.len() && 0 <= c < polys@[p]@.len() ==> (#[trigger] polys@[p]@[c]).wf(),
            v@ == ine_text(d as int, polys@, i as int),
        decreases polys@.len() - i,
    {
        proof {
            assert forall|c: int| 0 <= c < polys@[i as int]@.len() implies (#[trigger] polys@[i as int]@[c]).wf() by {}
        }
        push_block(&mut v, i, d, &polys[i]);
        i = i + 1;
    }
    string_from_chars(v.as_slice())
}


/// A JSON document as the input reader sees it; a number keeps the text
/// that `serde_json` prints for it.
#[derive(Debug)]
pub enum Json {
    Null,
    Bool(bool),
    Number(String),
    Str(String),
    Array(Vec<Json>),
    Object(Vec<(String, Json)>),
}

#[verifier::external_type_specification]
#[verifier::external_body]
pub struct ExJsonValue(serde_json::Value);

/// The document `serde_json` reads from `text`, if it reads one.
pub uninterp spec fn spec_json(text: Seq<char>) -> Option<Json>;

/// A `serde_json` value read as a [`Json`] tree, variant for variant.
/// Trusted: `serde_json::Value` and `Number`'s `Display`; nothing is claimed
/// of the result beyond what [`json_parse`] names.
#[verifier::external_body]
fn json_of_value(v: &serde_json::Value) -> Json {
    match v {
        serde_json::Value::Null => Json::Null,
        serde_json::Value::Bool(b) => Json::Bool(*b),
        serde_json::Value::Number(n) => Json::Number(n.to_string()),
        serde_json::Value::String(s) => Json::Str(s.clone()),
        serde_json::Value::Array(a) => Json::Array(a.iter().map(json_of_value).collect()),
        serde_json::Value::Object(m) => Json::Object(m.iter().map(|(k, x)| (k.clone(), json_of_value(x))).collect()),
    }
}

/// A [`Json`] tree back as a `serde_json` value, variant for variant.
/// Trusted: `serde_json::Value` and `Number`'s `FromStr`; only used for the
/// text of an error message.
#[verifier::external_body]
fn value_of_json(v: &Json) -> serde_json::Value {
    match v {
        Json::Null => serde_json::Value::Null,
        Json::Bool(b) => serde_json::Value::Bool(*b),
        Json::Number(s) => s.parse::<serde_json::Number>().map(serde_json::Value::Number).unwrap_or(serde_json::Value::Null),
        Json::Str(s) => serde_json::Value::String(s.clone()),
        Json::Array(a) => serde_json::Value::Array(a.iter().map(value_of_json).collect()),
        Json::Object(es) => serde_json::Value::Object(es.iter().map(|(k, x)| (k.clone(), value_of_json(x))).collect()),
    }
}

/// Trusted: `serde_json::from_str` into a `serde_json::Value`, read as
/// [`Json`].  Claims that the outcome is the document named
/// [`spec_json`] of the text; the error text is `serde_json`'s and is not
/// described.
#[verifier::external_body]
fn json_parse(text: &str) -> (r: Result<Json, String>)
    ensures
        r is Ok <==> spec_json(text@) is Some,
        r matches Ok(j) ==> spec_json(text@) == Some(j),
{
    match serde_json::from_str::<serde_json::Value>(text) {
        Ok(v) => Ok(json_of_value(&v)),
        Err(e) => Err(e.to_string()),
    }
}

/// Message for a value that is not a number.
/// Trusted: std `format!` with `serde_json`'s `Display`; nothing is claimed
/// of the text.
#[verifier::external_body]
fn msg_not_number(v: &Json) -> String {
    format!("expected a number, got {}", value_of_json(v))
}

/// Message for a number that does not read as a rational.
/// Trusted: std `format!`, which writes the literal piece and the text.
#[verifier::external_body]
fn msg_bad_json_number(n: &str) -> (r: String)
    ensures
        r@ == "bad number "@ + n@,
{
    format!("bad number {n}")
}

/// Message for a string that does not read as a rational.
/// Trusted: std `format!`, which writes the literal pieces with the text
/// between them.
#[verifier::external_body]
fn msg_bad_json_string(s: &str) -> (r: String)
    ensures
        r@ == "bad number '"@ + s@ + "'"@,
{
    format!("bad number '{s}'")
}

/// Message for a missing field of a polytope.
/// Trusted: std `format!`, which writes the literal pieces, the index in
/// decimal (`usize`'s `Display`) and the field's name between them.
#[verifier::external_body]
fn msg_missing(pi: usize, field: &str) -> (r: String)
    ensures
        r@ == "polytope "@ + crate::text::int_repr(pi as int) + ": missing '"@ + field@ + "'"@,
{
    format!("polytope {pi}: missing '{field}'")
}

/// Message for `A` and `b` of different lengths.
/// Trusted: std `format!`, which writes the literal pieces and the numbers
/// in decimal (`usize`'s `Display`) between them.
#[verifier::external_body]
fn msg_row_counts(pi: usize, a: usize, b: usize) -> (r: String)
    ensures
        r@ == "polytope "@ + crate::text::int_repr(pi as int) + ": A has "@ + crate::text::int_repr(a as int) + " rows but b has "@ + crate::text::int_repr(
            b as int,
        ),
{
    format!("polytope {pi}: A has {a} rows but b has {b}")
}

/// Message for a row of `A` that is not an array.
/// Trusted: std `format!`, which writes the literal pieces and the indices
/// in decimal (`usize`'s `Display`) between them.
#[verifier::external_body]
fn msg_row_not_array(pi: usize, ri: usize) -> (r: String)
    ensures
        r@ == "polytope "@ + crate::text::int_repr(pi as int) + " row "@ + crate::text::int_repr(ri as int) + ": expected array"@,
{
    format!("polytope {pi} row {ri}: expected array")
}

/// Message for a row of another length than the first row.
/// Trusted: std `format!`, which writes the literal pieces and the indices
/// in decimal (`usize`'s `Display`) between them.
#[verifier::external_body]
fn msg_dim_mismatch(pi: usize, ri: usize) -> (r: String)
    ensures
        r@ == "polytope "@ + crate::text::int_repr(pi as int) + " row "@ + crate::text::int_repr(ri as int) + ": dimension mismatch"@,
{
    format!("polytope {pi} row {ri}: dimension mismatch")
}

/// The value under `key` among object entries: the first with that key.
pub open spec fn field_of(es: Seq<(String, Json)>, key: Seq<char>) -> Option<Json>
    decreases es.len(),
{
    if es.len() == 0 {
        None
    } else if es[0].0@ == key {
        Some(es[0].1)
    } else {
        field_of(es.drop_first(), key)
    }
}

/// The value under `key` of an object; `None` for anything else.
pub open spec fn json_field(v: Json, key: Seq<char>) -> Option<Json> {
    match v {
        Json::Object(es) => field_of(es@, key),
        _ => None,
    }
}

/// The items of an array; `None` for anything else.
pub open spec fn json_items(v: Json) -> Option<Seq<Json>> {
    match v {
        Json::Array(xs) => Some(xs@),
        _ => None,
    }
}

/// A number, or a string holding one, read as a rational.
pub open spec fn json_number(v: Json) -> Option<(int, int)> {
    match v {
        Json::Number(s) => number_of(s@),
        Json::Str(s) => number_of(s@),
        _ => None,
    }
}

/// All items read as rationals.
pub open spec fn json_numbers(xs: Seq<Json>) -> Option<Seq<(int, int)>>
    decreases xs.len(),
{
    if xs.len() == 0 {
        Some(seq![])
    } else {
        match json_numbers(xs.drop_last()) {
            Some(r) => match json_number(xs.last()) {
                Some(x) => Some(r.push(x)),
                None => None,
            },
            None => None,
        }
    }
}

/// `Some` of the value of an optional count.
pub open spec fn dopt(d: Option<usize>) -> Option<int> {
    match d {
        Some(x) => Some(x as int),
        None => None,
    }
}

/// The rows `A[i] x ≤ b[i]`, read in order; every row must have the
/// dimension `dim` of the rows before it (the first row sets it).  Gives
/// the rows and the dimension after them.
pub open spec fn scan_rows(a: Seq<Json>, b: Seq<Json>, dim: Option<int>) -> Option<
    (Seq<(Seq<(int, int)>, (int, int))>, Option<int>),
>
    decreases a.len(),
{
    if a.len() == 0 {
        Some((seq![], dim))
    } else {
        match scan_rows(a.drop_last(), b.drop_last(), dim) {
            None => None,
            Some((rs, d1)) => match json_items(a.last()) {
                None => None,
                Some(row) => match json_numbers(row) {
                    None => None,
                    Some(xs) => if d1 matches Some(x) && xs.len() != x {
                        None
                    } else {
                        match json_number(b.last()) {
                            None => None,
                            Some(y) => Some((rs.push((xs, y)), Some(xs.len() as int))),
                        }
                    },
                },
            },
        }
    }
}

/// One polytope `{"A": [...], "b": [...]}`.
pub open spec fn scan_poly(p: Json, dim: Option<int>) -> Option<(Seq<(Seq<(int, int)>, (int, int))>, Option<int>)> {
    match json_field(p, "A"@) {
        None => None,
        Some(av) => match json_items(av) {
            None => None,
            Some(a) => match json_field(p, "b"@) {
                None => None,
                Some(bv) => match json_items(bv) {
                    None => None,
                    Some(b) => if a.len() != b.len() {
                        None
                    } else {
                        scan_rows(a, b, dim)
                    },
                },
            },
        },
    }
}

/// All polytopes in order, the dimension carried from one to the next.
pub open spec fn scan_polys(ps: Seq<Json>) -> Option<(Seq<Seq<(Seq<(int, int)>, (int, int))>>, Option<int>)>
    decreases ps.len(),
{
    if ps.len() == 0 {
        Some((seq![], None))
    } else {
        match scan_polys(ps.drop_last()) {
            None => None,
            Some((bl, dim)) => match scan_poly(ps.last(), dim) {
                None => None,
                Some((rs, d2)) => Some((bl.push(rs), d2)),
            },
        }
    }
}

/// The input a JSON document describes: `{"polytopes": [{"A": [[...]],
/// "b": [...]}, ...]}` meaning `A x ≤ b`, every row of one dimension and at
/// least one row.
pub open spec fn json_input(v: Json) -> Option<(int, Seq<Seq<(Seq<(int, int)>, (int, int))>>)> {
    match json_field(v, "polytopes"@) {
        None => None,
        Some(pv) => match json_items(pv) {
            None => None,
            Some(ps) => match scan_polys(ps) {
                Some((bl, Some(d))) => Some((d, bl)),
                _ => None,
            },
        },
    }
}

/// A failing prefix makes the whole item list fail.
proof fn lemma_json_numbers_prefix(xs: Seq<Json>, k: int)
    requires
        0 <= k <= xs.len(),
        json_numbers(xs.take(k)) is None,
    ensures
        json_numbers(xs) is None,
    decreases xs.len() - k,
{
    if k < xs.len() {
        assert(xs.take(k + 1).drop_last() =~= xs.take(k));
        lemma_json_numbers_prefix(xs, k + 1);
    } else {
        assert(xs.take(k) =~= xs);
    }
}

/// A failing prefix of rows makes the whole list fail.
proof fn lemma_scan_rows_prefix(a: Seq<Json>, b: Seq<Json>, dim: Option<int>, k: int)
    requires
        a.len() == b.len(),
        0 <= k <= a.len(),
        scan_rows(a.take(k), b.take(k), dim) is None,
    ensures
        scan_rows(a, b, dim) is None,
    decreases a.len() - k,
{
    if k < a.len() {
        assert(a.take(k + 1).drop_last() =~= a.take(k));
        assert(b.take(k + 1).drop_last() =~= b.take(k));
        lemma_scan_rows_prefix(a, b, dim, k + 1);
    } else {
        assert(a.take(k) =~= a);
        assert(b.take(k) =~= b);
    }
}

/// A failing prefix of polytopes makes the whole list fail.
proof fn lemma_scan_polys_prefix(ps: Seq<Json>, k: int)
    requires
        0 <= k <= ps.len(),
        scan_polys(ps.take(k)) is None,
    ensures
        scan_polys(ps) is None,
    decreases ps.len() - k,
{
    if k < ps.len() {
        assert(ps.take(k + 1).drop_last() =~= ps.take(k));
        lemma_scan_polys_prefix(ps, k + 1);
    } else {
        assert(ps.take(k) =~= ps);
    }
}

/// The text equals the literal.
fn text_is(k: &String, lit: &str) -> (r: bool)
    ensures
        r == (k@ == lit@),
{
    let a = str_chars(k.as_str());
    let b = str_chars(lit);
    if a.len() != b.len() {
        return false;
    }
    let mut i: usize = 0;
    while i < a.len()
        invariant
            a@.len() == b@.len(),
            a@ == k@,
            b@ == lit@,
            i <= a@.len(),
            forall|j: int| 0 <= j < i ==> a@[j] == b@[j],
        decreases a@.len() - i,
    {
        if a[i] != b[i] {
            proof {
                assert(k@[i as int] != lit@[i as int]);
            }
            return false;
        }
        i = i + 1;
    }
    assert(a@ =~= b@);
    true
}

/// The value under `key` of an object.
fn get_field<'a>(v: &'a Json, key: &str) -> (r: Option<&'a Json>)
    ensures
        r matches Some(x) ==> json_field(*v, key@) == Some(*x),
        r is None ==> json_field(*v, key@) is None,
{
    match v {
        Json::Object(es) => {
            let mut i: usize = 0;
            assert(es@.skip(0) =~= es@);
            while i < es.len()
                invariant
                    i <= es@.len(),
                    json_field(*v, key@) == field_of(es@, key@),
                    field_of(es@, key@) == field_of(es@.skip(i as int), key@),
                decreases es@.len() - i,
            {
                assert(es@.skip(i as int).drop_first() =~= es@.skip(i + 1));
                assert(es@.skip(i as int)[0] == es@[i as int]);
                if text_is(&es[i].0, key) {
                    assert(field_of(es@.skip(i as int), key@) == Some(es@[i as int].1));
                    return Some(&es[i].1);
                }
                i = i + 1;
            }
            None
        },
        _ => None,
    }
}

/// One entry read as a rational.
fn json_q(v: &Json) -> (r: Result<Q, String>)
    ensures
        r is Ok <==> json_number(*v) is Some,
        r matches Ok(q) ==> q.wf() && (json_number(*v) matches Some(x) && crate::sweep::equiv(qv(q), x)),
        r matches Err(m) ==> (v matches Json::Number(n) ==> m@ == "bad number "@ + n@),
        r matches Err(m) ==> (v matches Json::Str(t) ==> m@ == "bad number '"@ + t@ + "'"@),
{
    match v {
        Json::Number(s) => match parse_q(&str_chars(s.as_str())) {
            Some(q) => Ok(q),
            None => Err(msg_bad_json_number(s.as_str())),
        },
        Json::Str(s) => match parse_q(&str_chars(s.as_str())) {
            Some(q) => Ok(q),
            None => Err(msg_bad_json_string(s.as_str())),
        },
        _ => Err(msg_not_number(v)),
    }
}

/// All entries of a row read as rationals.
fn json_row(row: &Vec<Json>) -> (r: Result<Vec<Q>, String>)
    ensures
        r is Ok <==> json_numbers(row@) is Some,
        r matches Ok(a) ==> all_q_wf(a@) && (json_numbers(row@) matches Some(xs) && a@.len() == xs.len() && forall|k: int|
            0 <= k < xs.len() ==> crate::sweep::equiv(qv(#[trigger] a@[k]), xs[k])),
{
    let mut out: Vec<Q> = Vec::new();
    let mut i: usize = 0;
    while i < row.len()
        invariant
            i <= row@.len(),
            all_q_wf(out@),
            json_numbers(row@.take(i as int)) matches Some(xs) && out@.len() == xs.len() && forall|k: int|
                0 <= k < xs.len() ==> crate::sweep::equiv(qv(#[trigger] out@[k]), xs[k]),
        decreases row@.len() - i,
    {
        assert(row@.take(i + 1).drop_last() =~= row@.take(i as int));
        match json_q(&row[i]) {
            Ok(q) => {
                let ghost o0 = out@;
                out.push(q);
                proof {
                    let xs = json_numbers(row@.take(i as int))->0;
                    assert(json_numbers(row@.take(i + 1)) == Some(xs.push(json_number(row@[i as int])->0)));
                    assert forall|k: int| 0 <= k < out@.len() implies (#[trigger] out@[k]).wf() by {
                        if k < o0.len() {
                            assert(out@[k] == o0[k]);
                        }
                    }
                    assert forall|k: int| 0 <= k < xs.len() + 1 implies crate::sweep::equiv(
                        qv(#[trigger] out@[k]),
                        xs.push(json_number(row@[i as int])->0)[k],
                    ) by {
                        if k < o0.len() {
                            assert(out@[k] == o0[k]);
                        }
                    }
                }
            },
            Err(e) => {
                proof {
                    lemma_json_numbers_prefix(row@, i + 1);
                }
                return Err(e);
            },
        }
        i = i + 1;
    }
    assert(row@.take(row@.len() as int) =~= row@);
    Ok(out)
}

/// The rows of one polytope, `A[i] x ≤ b[i]`, the dimension checked
/// against `d` (set by the first row when `None`).
fn json_poly(p: &Json, pi: usize, d: &mut Option<usize>) -> (r: Result<Vec<RawConstraint>, String>)
    ensures
        r is Ok <==> scan_poly(*p, dopt(*old(d))) is Some,
        r matches Ok(cons) ==> (scan_poly(*p, dopt(*old(d))) matches Some((rs, d2)) && rows_match(cons@, rs) && d2
            == dopt(*final(d))),
        r matches Ok(cons) ==> forall|c: int| 0 <= c < cons@.len() ==> (#[trigger] cons@[c]).wf() && (*final(d) matches Some(
            x) && cons@[c].a@.len() == x),
        r matches Ok(cons) ==> (*old(d) matches Some(x) ==> *final(d) == Some(x)),
        r matches Ok(cons) ==> (*final(d) is None ==> cons@.len() == 0),
{
    let ghost d0 = *d;
    let av = match get_field(p, "A") {
        Some(x) => x,
        None => {
            return Err(msg_missing(pi, "A"));
        },
    };
    let a = match av {
        Json::Array(a) => a,
        _ => {
            return Err(msg_missing(pi, "A"));
        },
    };
    let bv = match get_field(p, "b") {
        Some(x) => x,
        None => {
            return Err(msg_missing(pi, "b"));
        },
    };
    let b = match bv {
        Json::Array(b) => b,
        _ => {
            return Err(msg_missing(pi, "b"));
        },
    };
    if a.len() != b.len() {
        return Err(msg_row_counts(pi, a.len(), b.len()));
    }
    let mut cons: Vec<RawConstraint> = Vec::new();
    let ghost mut rs: Seq<(Seq<(int, int)>, (int, int))> = seq![];
    let mut ri: usize = 0;
    assert(scan_poly(*p, dopt(d0)) == scan_rows(a@, b@, dopt(d0)));
    assert(a@.take(0) =~= Seq::<Json>::empty());
    assert(b@.take(0) =~= Seq::<Json>::empty());
    while ri < a.len()
        invariant
            d0 == *old(d),
            scan_poly(*p, dopt(d0)) == scan_rows(a@, b@, dopt(d0)),
            a@.len() == b@.len(),
            ri <= a@.len(),
            json_items(*av) == Some(a@),
            json_items(*bv) == Some(b@),
            scan_rows(a@.take(ri as int), b@.take(ri as int), dopt(d0)) == Some((rs, dopt(*d))),
            rows_match(cons@, rs),
            forall|c: int| 0 <= c < cons@.len() ==> (#[trigger] cons@[c]).wf() && (*d matches Some(x) && cons@[c].a@.len() == x),
            d0 matches Some(x) ==> *d == Some(x),
            *d is None ==> cons@.len() == 0,
        decreases a@.len() - ri,
    {
        assert(a@.take(ri + 1).drop_last() =~= a@.take(ri as int));
        assert(b@.take(ri + 1).drop_last() =~= b@.take(ri as int));
        assert(a@.take(ri + 1).last() == a@[ri as int]);
        assert(b@.take(ri + 1).last() == b@[ri as int]);
        let row = match &a[ri] {
            Json::Array(row) => row,
            _ => {
                proof {
                    assert(json_items(a@[ri as int]) is None);
                    assert(scan_rows(a@.take(ri + 1), b@.take(ri + 1), dopt(d0)) is None);
                    lemma_scan_rows_prefix(a@, b@, dopt(d0), ri + 1);
                }
                return Err(msg_row_not_array(pi, ri));
            },
        };
        assert(json_items(a@[ri as int]) == Some(row@));
        let av2 = match json_row(row) {
            Ok(x) => x,
            Err(e) => {
                proof {
                    assert(scan_rows(a@.take(ri + 1), b@.take(ri + 1), dopt(d0)) is None);
                    lemma_scan_rows_prefix(a@, b@, dopt(d0), ri + 1);
                }
                return Err(e);
            },
        };
        match *d {
            None => {
                *d = Some(av2.len());
            },
            Some(dd) => {
                if dd != av2.len() {
                    proof {
                        lemma_scan_rows_prefix(a@, b@, dopt(d0), ri + 1);
                    }
                    return Err(msg_dim_mismatch(pi, ri));
                }
            },
        }
        let bq = match json_q(&b[ri]) {
            Ok(q) => q,
            Err(e) => {
                proof {
                    lemma_scan_rows_prefix(a@, b@, dopt(d0), ri + 1);
                }
                return Err(e);
            },
        };
        let ghost c0 = cons@;
        let ghost xs = json_numbers(row@)->0;
        let ghost y = json_number(b@[ri as int])->0;
        cons.push(RawConstraint { a: av2, b: bq });
        proof {
            rs = rs.push((xs, y));
            assert forall|c: int| 0 <= c < cons@.len() implies (#[trigger] cons@[c]).wf() && (*d matches Some(x)
                && cons@[c].a@.len() == x) by {
                if c < c0.len() {
                    assert(cons@[c] == c0[c]);
                }
            }
            assert forall|i: int| 0 <= i < cons@.len() implies (#[trigger] cons@[i]).a@.len() == rs[i].0.len()
                && crate::sweep::equiv(qv(cons@[i].b), rs[i].1) && forall|k: int|
                0 <= k < cons@[i].a@.len() ==> crate::sweep::equiv(qv(#[trigger] cons@[i].a@[k]), rs[i].0[k]) by {
                if i < c0.len() {
                    assert(cons@[i] == c0[i]);
                }
            }
        }
        ri = ri + 1;
    }
    assert(a@.take(a@.len() as int) =~= a@);
    assert(b@.take(b@.len() as int) =~= b@);
    Ok(cons)
}

/// The input a JSON document describes, or the first problem found in it.
pub fn input_from_json(v: &Json) -> (r: Result<Input, String>)
    ensures
        r is Ok <==> json_input(*v) is Some,
        r matches Ok(inp) ==> inp.wf() && parsed_as(inp, json_input(*v)),
{
    let pv = match get_field(v, "polytopes") {
        Some(x) => x,
        None => {
            return Err("expected top-level 'polytopes' array".to_owned());
        },
    };
    let polys = match pv {
        Json::Array(xs) => xs,
        _ => {
            return Err("expected top-level 'polytopes' array".to_owned());
        },
    };
    let mut d: Option<usize> = None;
    let mut polytopes: Vec<Vec<RawConstraint>> = Vec::new();
    let ghost mut bl: Seq<Seq<(Seq<(int, int)>, (int, int))>> = seq![];
    let mut pi: usize = 0;
    assert(polys@.take(0) =~= Seq::<Json>::empty());
    while pi < polys.len()
        invariant
            json_field(*v, "polytopes"@) == Some(*pv),
            pi <= polys@.len(),
            json_items(*pv) == Some(polys@),
            scan_polys(polys@.take(pi as int)) == Some((bl, dopt(d))),
            blocks_match(polytopes@, bl),
            forall|p: int, c: int|
                0 <= p < polytopes@.len() && 0 <= c < polytopes@[p]@.len() ==> (#[trigger] polytopes@[p]@[c]).wf() && (
                d matches Some(x) && polytopes@[p]@[c].a@.len() == x),
        decreases polys@.len() - pi,
    {
        assert(polys@.take(pi + 1).drop_last() =~= polys@.take(pi as int));
        assert(polys@.take(pi + 1).last() == polys@[pi as int]);
        let ghost d0 = d;
        match json_poly(&polys[pi], pi, &mut d) {
            Ok(cons) => {
                let ghost p0 = polytopes@;
                let ghost rs = (scan_poly(polys@[pi as int], dopt(d0))->0).0;
                polytopes.push(cons);
                proof {
                    bl = bl.push(rs);
                    assert forall|p: int, c: int|
                        0 <= p < polytopes@.len() && 0 <= c < polytopes@[p]@.len() implies (#[trigger] polytopes@[p]@[c]).wf()
                        && (d matches Some(x) && polytopes@[p]@[c].a@.len() == x) by {
                        if p < p0.len() {
                            assert(polytopes@[p] == p0[p]);
                        }
                    }
                    assert forall|p: int| 0 <= p < polytopes@.len() implies rows_match((#[trigger] polytopes@[p])@, bl[p]) by {
                        if p < p0.len() {
                            assert(polytopes@[p] == p0[p]);
                        }
                    }
                }
            },
            Err(e) => {
                proof {
                    assert(scan_polys(polys@.take(pi + 1)) is None);
                    lemma_scan_polys_prefix(polys@, pi + 1);
                }
                return Err(e);
            },
        }
        pi = pi + 1;
    }
    assert(polys@.take(polys@.len() as int) =~= polys@);
    match d {
        Some(dd) => Ok(Input { d: dd, polytopes }),
        None => Err("no constraints".to_owned()),
    }
}

/// Reads a JSON input `{"polytopes": [{"A": [[...]], "b": [...]}, ...]}`
/// meaning `A x ≤ b`.
pub fn parse_json(text: &str) -> (r: Result<Input, String>)
    ensures
        r is Ok <==> (spec_json(text@) matches Some(v) && json_input(v) is Some),
        r matches Ok(inp) ==> (spec_json(text@) matches Some(v) && inp.wf() && parsed_as(inp, json_input(v))),
{
    match json_parse(text) {
        Ok(v) => input_from_json(&v),
        Err(e) => Err(e),
    }
}

/// The text, leading whitespace aside, starts with `{`.
pub open spec fn looks_like_json(text: Seq<char>) -> bool {
    trimmed(text).len() > 0 && trimmed(text)[0] == '{'
}

/// Reads JSON when the text starts with `{`, an `.ine` text otherwise.
pub fn parse_auto(text: &str) -> (r: Result<Input, String>)
    ensures
        looks_like_json(text@) ==> (r is Ok <==> (spec_json(text@) matches Some(v) && json_input(v) is Some)),
        looks_like_json(text@) ==> (r matches Ok(inp) ==> (spec_json(text@) matches Some(v) && inp.wf() && parsed_as(
            inp,
            json_input(v),
        ))),
        !looks_like_json(text@) ==> (r is Ok <==> ine_blocks(ine_lines(text@), 0, None, seq![]) is Some),
        !looks_like_json(text@) ==> (r matches Ok(inp) ==> inp.wf() && parsed_as(
            inp,
            ine_blocks(ine_lines(text@), 0, None, seq![]),
        )),
{
    let t = str_chars(str_trim(text));
    if t.len() > 0 && t[0] == '{' {
        parse_json(text)
    } else {
        parse_ine(text)
    }
}

} // verus!
