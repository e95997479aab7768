//! Signed point counts over the cube `{±1}^d`, for the Euler-type
//! characteristic `χ` of unions of sub-cubes used by the sweep-plane cell
//! test.  A point is a `u64` whose bit `k` is set when `σ_k = −1`; a
//! sub-cube `(mask, vals)` fixes the coordinates in `mask` to the bits of
//! `vals`.
use vstd::prelude::*;

verus! {

/// `p` lies in the sub-cube `c = (mask, vals)`.
pub open spec fn in_cube(p: u64, c: (u64, u64)) -> bool {
    p & c.0 == c.1
}

/// `p` lies in one of the sub-cubes `cubes[from..]`.
pub open spec fn in_union(p: u64, cubes: Seq<(u64, u64)>, from: int) -> bool {
    exists|j: int| from <= j < cubes.len() && in_cube(p, #[trigger] cubes[j])
}

/// Bit `k` of `x`.
pub open spec fn bit(x: u64, k: u64) -> bool {
    (x >> k) & 1 == 1
}

/// Number of set bits of `x` below position `k`.
pub open spec fn ones_below(x: u64, k: nat) -> nat
    decreases k,
{
    if k == 0 {
        0
    } else {
        ones_below(x, (k - 1) as nat) + if bit(x, (k - 1) as u64) {
            1nat
        } else {
            0nat
        }
    }
}

/// `Σ s·(−1)^{popcount(x)} · [S(b | x)]` over the `x` made of bits below
/// `k` (`b` has those bits clear): a signed count of the points of `S`.
pub open spec fn signed_count(s_fn: spec_fn(u64) -> bool, k: nat, b: u64, s: int) -> int
    decreases k,
{
    if k == 0 {
        if s_fn(b) {
            s
        } else {
            0
        }
    } else {
        signed_count(s_fn, (k - 1) as nat, b, s) + signed_count(
            s_fn,
            (k - 1) as nat,
            b | (1u64 << ((k - 1) as u64)),
            -s,
        )
    }
}

/// `χ(S) = Σ_{σ ∈ S} Π_k σ_k` over `{±1}^dd`.
pub open spec fn chi(s_fn: spec_fn(u64) -> bool, dd: nat) -> int {
    signed_count(s_fn, dd, 0, 1)
}

/// The mask of the first `d` coordinates (all 64 when `d ≥ 64`).
pub open spec fn full_mask(d: nat) -> u64 {
    if d >= 64 {
        u64::MAX
    } else {
        ((1u64 << (d as u64)) - 1) as u64
    }
}

/// Splitting a set by another: `χ(A) = χ(A \ B) + χ(A ∩ B)`.
pub proof fn lemma_split(a: spec_fn(u64) -> bool, bb: spec_fn(u64) -> bool, k: nat, b: u64, s: int)
    ensures
        signed_count(a, k, b, s) == signed_count(|p: u64| a(p) && !bb(p), k, b, s) + signed_count(
            |p: u64| a(p) && bb(p),
            k,
            b,
            s,
        ),
    decreases k,
{
    if k > 0 {
        lemma_split(a, bb, (k - 1) as nat, b, s);
        lemma_split(a, bb, (k - 1) as nat, b | (1u64 << ((k - 1) as u64)), -s);
    }
}

/// The empty set counts zero.
pub proof fn lemma_empty(a: spec_fn(u64) -> bool, k: nat, b: u64, s: int)
    requires
        forall|p: u64| !#[trigger] a(p),
    ensures
        signed_count(a, k, b, s) == 0,
    decreases k,
{
    if k > 0 {
        lemma_empty(a, (k - 1) as nat, b, s);
        lemma_empty(a, (k - 1) as nat, b | (1u64 << ((k - 1) as u64)), -s);
    }
}

proof fn bv_set_outside_mask(b: u64, m: u64, j: u64)
    by (bit_vector)
    requires
        j < 64,
        m & (1u64 << j) == 0,
    ensures
        (b | (1u64 << j)) & m == b & m,
{
}

proof fn bv_commute(b: u64, t: u64, j: u64)
    by (bit_vector)
    ensures
        (b | (1u64 << t)) | (1u64 << j) == (b | (1u64 << j)) | (1u64 << t),
{
}

/// Toggling (setting) a coordinate that the cube leaves free negates the
/// signed count.
proof fn lemma_flip(c: (u64, u64), k: nat, b: u64, s: int, j: u64)
    requires
        j < 64,
        k <= j,
        c.0 & (1u64 << j) == 0,
    ensures
        signed_count(|p: u64| in_cube(p, c), k, b | (1u64 << j), -s) == -signed_count(
            |p: u64| in_cube(p, c),
            k,
            b,
            s,
        ),
    decreases k,
{
    let f = |p: u64| in_cube(p, c);
    if k == 0 {
        bv_set_outside_mask(b, c.0, j);
    } else {
        let t = (k - 1) as u64;
        lemma_flip(c, (k - 1) as nat, b, s, j);
        lemma_flip(c, (k - 1) as nat, b | (1u64 << t), -s, j);
        bv_commute(b, t, j);
    }
}

/// A sub-cube with a free coordinate below `k` counts zero.
pub proof fn lemma_free_coordinate(c: (u64, u64), k: nat, b: u64, s: int, j: u64)
    requires
        (j as nat) < k,
        k <= 64,
        c.0 & (1u64 << j) == 0,
    ensures
        signed_count(|p: u64| in_cube(p, c), k, b, s) == 0,
    decreases k,
{
    let t = (k - 1) as u64;
    if t == j {
        lemma_flip(c, (k - 1) as nat, b, s, j);
    } else {
        lemma_free_coordinate(c, (k - 1) as nat, b, s, j);
        lemma_free_coordinate(c, (k - 1) as nat, b | (1u64 << t), -s, j);
    }
}


proof fn bv_disagree(b: u64, m: u64, v: u64, t: u64)
    by (bit_vector)
    requires
        t < 64,
        m & (1u64 << t) != 0,
        b & (1u64 << t) != v & (1u64 << t),
    ensures
        b & m != v,
{
}

proof fn bv_keep_bit(b: u64, t: u64, j: u64)
    by (bit_vector)
    requires
        t < 64,
        j < 64,
        t != j,
    ensures
        (b | (1u64 << j)) & (1u64 << t) == b & (1u64 << t),
{
}

/// A sub-cube that disagrees with `b` on a fixed coordinate at or above
/// `k` has no point below `b`.
proof fn lemma_disagree(c: (u64, u64), k: nat, b: u64, s: int, t: u64)
    requires
        t < 64,
        k <= t as nat,
        c.0 & (1u64 << t) != 0,
        b & (1u64 << t) != c.1 & (1u64 << t),
    ensures
        signed_count(|p: u64| in_cube(p, c), k, b, s) == 0,
    decreases k,
{
    if k == 0 {
        bv_disagree(b, c.0, c.1, t);
    } else {
        let j = (k - 1) as u64;
        bv_keep_bit(b, t, j);
        lemma_disagree(c, (k - 1) as nat, b, s, t);
        lemma_disagree(c, (k - 1) as nat, b | (1u64 << j), -s, t);
    }
}

/// The mask of the bits below `k`.
pub open spec fn low_mask(k: nat) -> u64 {
    full_mask(k)
}

proof fn bv_point_base(b: u64, f: u64, v: u64)
    by (bit_vector)
    requires
        b & f & !0u64 == v & !0u64,
    ensures
        b & f == v,
{
}

proof fn bv_point_step(b: u64, f: u64, v: u64, t: u64, lk: u64, lt: u64)
    by (bit_vector)
    requires
        t < 64,
        lt == ((1u64 << t) - 1) as u64,
        lk == lt | (1u64 << t),
        b & lk == 0,
        b & f & !lk == v & !lk,
        f & (1u64 << t) != 0,
    ensures
        b & lt == 0,
        (b | (1u64 << t)) & lt == 0,
        b & (1u64 << t) == 0,
        (b | (1u64 << t)) & (1u64 << t) != 0,
        (v & (1u64 << t) == 0) ==> b & f & !lt == v & !lt,
        (v & (1u64 << t) != 0) ==> (b | (1u64 << t)) & f & !lt == v & !lt,
        (v & (1u64 << t) == 0) == !((v >> t) & 1 == 1),
{
}

proof fn bv_low_masks(t: u64)
    by (bit_vector)
    requires
        t < 64,
    ensures
        (if t + 1 >= 64 { 0xffff_ffff_ffff_ffffu64 } else { ((1u64 << ((t + 1) as u64)) - 1) as u64 })
            == (((1u64 << t) - 1) as u64) | (1u64 << t),
{
}

pub proof fn lemma_low_mask_step(t: u64)
    requires
        t < 64,
    ensures
        low_mask((t + 1) as nat) == low_mask(t as nat) | (1u64 << t),
        low_mask(t as nat) == ((1u64 << t) - 1) as u64,
{
    bv_low_masks(t);
}

/// The only point of the cube `(full, v)` is `v`; its sign is the parity of
/// the set bits of `v`.
proof fn lemma_point(v: u64, f: u64, dd: nat, k: nat, b: u64, s: int)
    requires
        k <= dd <= 64,
        f == full_mask(dd),
        b & low_mask(k) == 0,
        b & f & !low_mask(k) == v & !low_mask(k),
    ensures
        signed_count(|p: u64| in_cube(p, (f, v)), k, b, s) == (if ones_below(v, k) % 2 == 0 { s } else { -s }),
    decreases k,
{
    let c = (f, v);
    if k == 0 {
        bv_shift_zero();
        assert(low_mask(0) == 0u64);
        bv_point_base(b, f, v);
    } else {
        let t = (k - 1) as u64;
        lemma_low_mask_step(t);
        assert(f & (1u64 << t) != 0) by {
            lemma_full_has_bit(dd, t);
        }
        bv_point_step(b, f, v, t, low_mask(k), low_mask(t as nat));
        if v & (1u64 << t) == 0 {
            lemma_point(v, f, dd, (k - 1) as nat, b, s);
            lemma_disagree(c, (k - 1) as nat, b | (1u64 << t), -s, t);
        } else {
            lemma_disagree(c, (k - 1) as nat, b, s, t);
            lemma_point(v, f, dd, (k - 1) as nat, b | (1u64 << t), -s);
        }
    }
}

proof fn bv_shift_zero()
    by (bit_vector)
    ensures
        ((1u64 << 0u64) - 1) as u64 == 0u64,
{
}

proof fn bv_full_bit(t: u64, dd: u64)
    by (bit_vector)
    requires
        t < dd,
        dd < 64,
    ensures
        (((1u64 << dd) - 1) as u64) & (1u64 << t) != 0,
{
}

proof fn bv_max_bit(t: u64)
    by (bit_vector)
    requires
        t < 64,
    ensures
        0xffff_ffff_ffff_ffffu64 & (1u64 << t) != 0,
{
}

pub proof fn lemma_full_has_bit(dd: nat, t: u64)
    requires
        (t as nat) < dd <= 64,
    ensures
        full_mask(dd) & (1u64 << t) != 0,
{
    if dd >= 64 {
        bv_max_bit(t);
    } else {
        bv_full_bit(t, dd as u64);
    }
}


proof fn bv_point_top(v: u64, f: u64)
    by (bit_vector)
    requires
        v & !f == 0,
    ensures
        0u64 & f & !f == v & !f,
        0u64 & f == 0u64,
{
}

/// `χ` of a cube fixing every coordinate: the sign of its single point.
pub proof fn lemma_full_cube(v: u64, dd: nat)
    requires
        dd <= 64,
        v & !full_mask(dd) == 0,
    ensures
        chi(|p: u64| in_cube(p, (full_mask(dd), v)), dd) == (if ones_below(v, dd) % 2 == 0 { 1int } else { -1int }),
{
    let f = full_mask(dd);
    bv_point_top(v, f);
    assert(low_mask(dd) == f);
    lemma_point(v, f, dd, dd, 0, 1);
}

proof fn bv_above_full(v: u64, f: u64, t: u64, dd: u64)
    by (bit_vector)
    requires
        dd <= t,
        t < 64,
        f == ((1u64 << dd) - 1) as u64,
        v & !f == 0,
    ensures
        !((v >> t) & 1 == 1),
{
}

/// Bits of `v` at or above `dd` are clear, so counting to 64 counts to `dd`.
pub proof fn lemma_ones_to_64(v: u64, dd: nat, k: nat)
    requires
        dd <= k <= 64,
        v & !full_mask(dd) == 0,
    ensures
        ones_below(v, k) == ones_below(v, dd),
    decreases k,
{
    if k > dd {
        lemma_ones_to_64(v, dd, (k - 1) as nat);
        bv_above_full(v, full_mask(dd), (k - 1) as u64, dd as u64);
    }
}

proof fn bv_free_bit_step(mask: u64, lj: u64, lj1: u64, j: u64)
    by (bit_vector)
    requires
        j < 64,
        lj1 == lj | (1u64 << j),
        mask & lj == lj,
        mask & (1u64 << j) != 0,
    ensures
        mask & lj1 == lj1,
{
}

proof fn bv_free_bit_end(mask: u64, f: u64)
    by (bit_vector)
    requires
        mask & f == f,
        mask & !f == 0,
    ensures
        mask == f,
{
}

/// A mask inside the first `dd` coordinates but not all of them leaves
/// some coordinate below `dd` free.
pub proof fn lemma_free_bit(mask: u64, dd: nat, j: nat) -> (t: u64)
    requires
        dd <= 64,
        j <= dd,
        mask & !full_mask(dd) == 0,
        mask != full_mask(dd),
        mask & low_mask(j) == low_mask(j),
    ensures
        (t as nat) < dd,
        mask & (1u64 << t) == 0,
    decreases dd - j,
{
    if j == dd {
        bv_free_bit_end(mask, full_mask(dd));
        0
    } else {
        let jj = j as u64;
        if mask & (1u64 << jj) == 0 {
            jj
        } else {
            lemma_low_mask_step(jj);
            bv_free_bit_step(mask, low_mask(j), low_mask(j + 1), jj);
            lemma_free_bit(mask, dd, j + 1)
        }
    }
}

proof fn bv_low_zero()
    by (bit_vector)
    ensures
        ((1u64 << 0u64) - 1) as u64 == 0u64,
        forall|m: u64| m & 0u64 == 0u64,
{
}

/// A cube with a coordinate below `dd` left free has `χ = 0`.
pub proof fn lemma_not_full_cube(c: (u64, u64), dd: nat)
    requires
        dd <= 64,
        c.0 & !full_mask(dd) == 0,
        c.0 != full_mask(dd),
    ensures
        chi(|p: u64| in_cube(p, c), dd) == 0,
{
    bv_low_zero();
    assert(low_mask(0) == 0u64);
    let t = lemma_free_bit(c.0, dd, 0);
    lemma_free_coordinate(c, dd, 0, 1, t);
}

/// `|χ| ≤ 2^(k−1)` for `k ≥ 1` (and `≤ 1` for `k = 0`), with `s = ±1`.
pub proof fn lemma_count_bound(f: spec_fn(u64) -> bool, k: nat, b: u64, s: int)
    requires
        s == 1 || s == -1,
    ensures
        k == 0 ==> -1 <= signed_count(f, k, b, s) <= 1,
        k >= 1 ==> -vstd::arithmetic::power2::pow2((k - 1) as nat) <= signed_count(f, k, b, s)
            <= vstd::arithmetic::power2::pow2((k - 1) as nat),
    decreases k,
{
    if k >= 1 {
        let t = (k - 1) as u64;
        lemma_count_bound(f, (k - 1) as nat, b, s);
        lemma_count_bound(f, (k - 1) as nat, b | (1u64 << t), -s);
        if k >= 2 {
            vstd::arithmetic::power2::lemma_pow2_unfold((k - 1) as nat);
        } else {
            vstd::arithmetic::power2::lemma2_to64();
        }
    }
}


/// A well-formed sub-cube of the first `dd` coordinates: `vals ⊆ mask ⊆ full`.
pub open spec fn cube_ok(c: (u64, u64), full: u64) -> bool {
    &&& c.1 & !c.0 == 0
    &&& c.0 & !full == 0
}

proof fn bv_meet(p: u64, mm: u64, vv: u64, m: u64, v: u64)
    by (bit_vector)
    requires
        vv & !mm == 0,
        v & !m == 0,
        vv & (mm & m) == v & (mm & m),
    ensures
        (p & (mm | m) == (vv | (v & m))) == (p & mm == vv && p & m == v),
        (vv | (v & m)) & !(mm | m) == 0,
{
}

proof fn bv_clash(p: u64, mm: u64, vv: u64, m: u64, v: u64)
    by (bit_vector)
    requires
        vv & (mm & m) != v & (mm & m),
    ensures
        !(p & mm == vv && p & m == v),
{
}

proof fn bv_masks(mm: u64, m: u64, f: u64, v: u64)
    by (bit_vector)
    requires
        mm & !f == 0,
        m & !f == 0,
        v & !m == 0,
    ensures
        (mm | m) & !f == 0,
        v & m == v,
        0u64 | m == m,
        0u64 | (v & m) == v,
        0u64 & (0u64 & m) == v & (0u64 & m),
{
}

/// Intersecting the cube `(mm, vv)` with `(m, v)`.
pub proof fn lemma_meet(mm: u64, vv: u64, m: u64, v: u64, f: u64)
    requires
        vv & !mm == 0,
        v & !m == 0,
        mm & !f == 0,
        m & !f == 0,
    ensures
        (vv & (mm & m)) == (v & (mm & m)) ==> (forall|p: u64|
            #![trigger in_cube(p, (mm | m, vv | (v & m)))]
            in_cube(p, (mm | m, vv | (v & m))) == (in_cube(p, (mm, vv)) && in_cube(p, (m, v)))),
        (vv & (mm & m)) == (v & (mm & m)) ==> cube_ok((mm | m, vv | (v & m)), f),
        (vv & (mm & m)) != (v & (mm & m)) ==> (forall|p: u64|
            #![trigger in_cube(p, (mm, vv)), in_cube(p, (m, v))]
            !(in_cube(p, (mm, vv)) && in_cube(p, (m, v)))),
{
    bv_masks(mm, m, f, v);
    if (vv & (mm & m)) == (v & (mm & m)) {
        assert forall|p: u64| #![trigger in_cube(p, (mm | m, vv | (v & m)))]
            in_cube(p, (mm | m, vv | (v & m))) == (in_cube(p, (mm, vv)) && in_cube(p, (m, v))) by {
            bv_meet(p, mm, vv, m, v);
        }
        bv_meet(0, mm, vv, m, v);
    } else {
        assert forall|p: u64| #![trigger in_cube(p, (mm, vv)), in_cube(p, (m, v))]
            !(in_cube(p, (mm, vv)) && in_cube(p, (m, v))) by {
            bv_clash(p, mm, vv, m, v);
        }
    }
}

/// The cube `(m, v & m)` is the cube `(m, v)` when `v ⊆ m`.
pub proof fn lemma_start_cube(m: u64, v: u64, f: u64)
    requires
        v & !m == 0,
        m & !f == 0,
    ensures
        0u64 | m == m,
        0u64 | (v & m) == v,
        0u64 & (0u64 & m) == v & (0u64 & m),
{
    bv_zero_and(f);
    bv_masks(0, m, f, v);
}

proof fn bv_zero_and(f: u64)
    by (bit_vector)
    ensures
        0u64 & !f == 0,
{
}

/// `U_i = K_i ∪ U_{i+1}`.
pub proof fn lemma_union_step(p: u64, cubes: Seq<(u64, u64)>, i: int)
    requires
        0 <= i < cubes.len(),
    ensures
        in_union(p, cubes, i) == (in_cube(p, cubes[i]) || in_union(p, cubes, i + 1)),
{
    if in_union(p, cubes, i) {
        let j = choose|j: int| i <= j < cubes.len() && in_cube(p, #[trigger] cubes[j]);
        if j > i {
            assert(in_union(p, cubes, i + 1));
        }
    }
    if in_union(p, cubes, i + 1) {
        let j = choose|j: int| i + 1 <= j < cubes.len() && in_cube(p, #[trigger] cubes[j]);
        assert(i <= j);
    }
}

} // verus!
