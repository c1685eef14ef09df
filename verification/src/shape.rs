use vstd::prelude::*;
use vstd::arithmetic::div_mod::{
    lemma_breakdown, lemma_div_pos_is_pos, lemma_fundamental_div_mod,
    lemma_fundamental_div_mod_converse_mod, lemma_mod_division_less_than_divisor,
    lemma_small_mod,
};
use vstd::arithmetic::mul::{
    lemma_mul_inequality, lemma_mul_is_commutative, lemma_mul_is_distributive_add_other_way,
    lemma_mul_nonnegative, lemma_mul_strictly_positive,
};

verus! {

// Arrays are stored row-major, the last axis fastest. A shape is a sequence
// of dimension sizes; an element's position in iteration order (its flat
// index) and its coordinate tuple are related through suffix products of the
// shape. Views address the same buffer through an offset and per-axis
// strides, so the address of a coordinate tuple is the offset plus the dot
// product of the coordinates with the strides.

/// Product of the dimensions from `k` on; 1 past the end.
pub open spec fn sufprod(s: Seq<usize>, k: int) -> int
    decreases s.len() - k,
{
    if k < 0 || k >= s.len() {
        1
    } else {
        s[k] * sufprod(s, k + 1)
    }
}

/// Number of elements of an array of shape `s`.
pub open spec fn prod(s: Seq<usize>) -> int {
    sufprod(s, 0)
}

/// The row-major strides of a contiguous array of shape `s`.
pub open spec fn rm_strides(s: Seq<usize>) -> Seq<int> {
    Seq::new(s.len(), |k: int| sufprod(s, k + 1))
}

/// Coordinates of the `j`-th element, in iteration order, of shape `s`.
pub open spec fn unrank(s: Seq<usize>, j: int) -> Seq<int> {
    Seq::new(s.len(), |k: int| (j / sufprod(s, k + 1)) % (s[k] as int))
}

/// Flat index of the coordinate tuple `c`, summed from axis `k` on.
pub open spec fn rnk(s: Seq<usize>, c: Seq<int>, k: int) -> int
    decreases s.len() - k,
{
    if k < 0 || k >= s.len() {
        0
    } else {
        c[k] * sufprod(s, k + 1) + rnk(s, c, k + 1)
    }
}

/// Flat index of the coordinate tuple `c` in shape `s`.
pub open spec fn rank_of(s: Seq<usize>, c: Seq<int>) -> int {
    rnk(s, c, 0)
}

/// `c` indexes every axis of `s` within bounds.
pub open spec fn valid_coords(s: Seq<usize>, c: Seq<int>) -> bool {
    &&& c.len() == s.len()
    &&& forall|k: int| 0 <= k < s.len() ==> 0 <= #[trigger] c[k] < s[k]
}

/// Dot product of `a` and `b`, summed from position `k` on.
pub open spec fn dotsuf(a: Seq<int>, b: Seq<int>, k: int) -> int
    decreases a.len() - k,
{
    if k < 0 || k >= a.len() || k >= b.len() {
        0
    } else {
        a[k] * b[k] + dotsuf(a, b, k + 1)
    }
}

pub open spec fn dot(a: Seq<int>, b: Seq<int>) -> int {
    dotsuf(a, b, 0)
}

pub open spec fn min0(x: int) -> int {
    if x < 0 {
        x
    } else {
        0
    }
}

pub open spec fn max0(x: int) -> int {
    if x < 0 {
        0
    } else {
        x
    }
}

/// Sum over the axes from `k` on of the most negative contribution each axis
/// can make to an address.
pub open spec fn minsuf(s: Seq<usize>, st: Seq<int>, k: int) -> int
    decreases s.len() - k,
{
    if k < 0 || k >= s.len() || k >= st.len() {
        0
    } else {
        min0((s[k] - 1) * st[k]) + minsuf(s, st, k + 1)
    }
}

/// Sum over the axes from `k` on of the most positive contribution each axis
/// can make to an address.
pub open spec fn maxsuf(s: Seq<usize>, st: Seq<int>, k: int) -> int
    decreases s.len() - k,
{
    if k < 0 || k >= s.len() || k >= st.len() {
        0
    } else {
        max0((s[k] - 1) * st[k]) + maxsuf(s, st, k + 1)
    }
}

pub proof fn lemma_sufprod_nonneg(s: Seq<usize>, k: int)
    ensures
        sufprod(s, k) >= 0,
    decreases s.len() - k,
{
    if 0 <= k < s.len() {
        lemma_sufprod_nonneg(s, k + 1);
        lemma_mul_nonnegative(s[k] as int, sufprod(s, k + 1));
    }
}

/// A positive element count makes every suffix product positive and every
/// dimension at least 1.
pub proof fn lemma_sufprod_pos(s: Seq<usize>, k: int)
    requires
        prod(s) > 0,
        0 <= k <= s.len(),
    ensures
        sufprod(s, k) > 0,
        forall|i: int| 0 <= i < s.len() ==> (#[trigger] s[i]) >= 1,
    decreases k,
{
    lemma_all_dims_pos(s, 0);
    if k > 0 {
        lemma_sufprod_pos(s, k - 1);
        if k - 1 < s.len() {
            // sufprod(k-1) == s[k-1] * sufprod(k) > 0 and both factors nonneg
            lemma_sufprod_nonneg(s, k);
            if sufprod(s, k) == 0 {
                assert(s[k - 1] * 0 == 0) by (nonlinear_arith);
                assert(false);
            }
        }
    }
}

proof fn lemma_all_dims_pos(s: Seq<usize>, k: int)
    requires
        0 <= k <= s.len(),
        sufprod(s, k) > 0,
    ensures
        forall|i: int| k <= i < s.len() ==> (#[trigger] s[i]) >= 1,
    decreases s.len() - k,
{
    if k < s.len() {
        lemma_sufprod_nonneg(s, k + 1);
        if s[k] == 0 {
            assert(0 * sufprod(s, k + 1) == 0) by (nonlinear_arith);
            assert(false);
        }
        if sufprod(s, k + 1) <= 0 {
            assert(s[k] * 0 == 0) by (nonlinear_arith);
            lemma_mul_inequality(sufprod(s, k + 1), 0, s[k] as int);
            lemma_mul_is_commutative(s[k] as int, sufprod(s, k + 1));
            assert(false);
        }
        lemma_all_dims_pos(s, k + 1);
    }
}

/// When every dimension is positive, suffix products shrink (weakly) as `k`
/// grows; in particular each is at most the full product.
pub proof fn lemma_sufprod_le(s: Seq<usize>, j: int, k: int)
    requires
        prod(s) > 0,
        0 <= j <= k <= s.len(),
    ensures
        sufprod(s, k) <= sufprod(s, j),
    decreases k - j,
{
    if j < k {
        lemma_sufprod_le(s, j + 1, k);
        lemma_sufprod_pos(s, j + 1);
        lemma_sufprod_pos(s, j);
        // sufprod(j) == s[j] * sufprod(j+1) >= 1 * sufprod(j+1)
        lemma_mul_inequality(1, s[j] as int, sufprod(s, j + 1));
    }
}

/// The coordinates of any in-range flat index are in range on every axis.
pub proof fn lemma_unrank_valid(s: Seq<usize>, j: int)
    requires
        0 <= j < prod(s),
    ensures
        valid_coords(s, unrank(s, j)),
{
    lemma_sufprod_pos(s, 0);
    assert forall|k: int| 0 <= k < s.len() implies 0 <= #[trigger] unrank(s, j)[k] < s[k] by {
        lemma_sufprod_pos(s, k + 1);
        lemma_div_pos_is_pos(j, sufprod(s, k + 1));
        lemma_mod_division_less_than_divisor(j / sufprod(s, k + 1), s[k] as int);
    }
}

/// Ranking the coordinates of `j` from axis `k` on yields `j` modulo the
/// suffix product at `k`.
proof fn lemma_rnk_unrank_suf(s: Seq<usize>, j: int, k: int)
    requires
        prod(s) > 0,
        0 <= j,
        0 <= k <= s.len(),
    ensures
        rnk(s, unrank(s, j), k) == j % sufprod(s, k),
    decreases s.len() - k,
{
    lemma_sufprod_pos(s, k);
    if k == s.len() {
        lemma_small_mod(0, 1);
        assert(j % 1 == 0) by {
            lemma_fundamental_div_mod(j, 1);
        }
    } else {
        lemma_rnk_unrank_suf(s, j, k + 1);
        lemma_sufprod_pos(s, k + 1);
        // j % (sufprod(k+1) * s[k]) == sufprod(k+1) * ((j / sufprod(k+1)) % s[k]) + j % sufprod(k+1)
        lemma_breakdown(j, sufprod(s, k + 1), s[k] as int);
        lemma_mul_is_commutative(s[k] as int, sufprod(s, k + 1));
        lemma_mul_is_commutative(unrank(s, j)[k], sufprod(s, k + 1));
    }
}

/// Unranking then ranking is the identity on in-range flat indices.
pub proof fn lemma_rank_unrank(s: Seq<usize>, j: int)
    requires
        0 <= j < prod(s),
    ensures
        rank_of(s, unrank(s, j)) == j,
{
    lemma_rnk_unrank_suf(s, j, 0);
    lemma_small_mod(j as nat, prod(s) as nat);
}

/// The flat index of valid coordinates, summed from `k` on, lies below the
/// suffix product at `k`.
pub proof fn lemma_rnk_bounds(s: Seq<usize>, c: Seq<int>, k: int)
    requires
        valid_coords(s, c),
        prod(s) > 0,
        0 <= k <= s.len(),
    ensures
        0 <= rnk(s, c, k) < sufprod(s, k),
    decreases s.len() - k,
{
    lemma_sufprod_pos(s, k);
    if k < s.len() {
        lemma_rnk_bounds(s, c, k + 1);
        lemma_sufprod_pos(s, k + 1);
        lemma_mul_nonnegative(c[k], sufprod(s, k + 1));
        // (c[k] + 1) * sufprod(k+1) <= s[k] * sufprod(k+1)
        lemma_mul_inequality(c[k] + 1, s[k] as int, sufprod(s, k + 1));
        lemma_mul_is_distributive_add_other_way(sufprod(s, k + 1), c[k], 1);
    }
}

/// Ranking valid coordinates then unranking recovers the coordinates.
pub proof fn lemma_unrank_rank(s: Seq<usize>, c: Seq<int>)
    requires
        valid_coords(s, c),
        prod(s) > 0,
    ensures
        0 <= rank_of(s, c) < prod(s),
        unrank(s, rank_of(s, c)) =~= c,
{
    lemma_rnk_bounds(s, c, 0);
    lemma_rnk_mod(s, c, 0);
    assert forall|k: int| 0 <= k < s.len() implies unrank(s, rank_of(s, c))[k] == c[k] by {
        lemma_rnk_mod(s, c, k);
        lemma_rnk_mod(s, c, k + 1);
        lemma_rnk_bounds(s, c, k + 1);
        lemma_sufprod_pos(s, k + 1);
        let j = rank_of(s, c);
        // j % sufprod(k) == rnk(k) == c[k] * sufprod(k+1) + rnk(k+1)
        lemma_breakdown(j, sufprod(s, k + 1), s[k] as int);
        lemma_mul_is_commutative(s[k] as int, sufprod(s, k + 1));
        // sufprod(k+1) * ((j/sufprod(k+1)) % s[k]) + j % sufprod(k+1)
        //   == sufprod(k+1) * c[k] + rnk(k+1), with both tails equal and small
        let q = (j / sufprod(s, k + 1)) % (s[k] as int);
        assert(sufprod(s, k + 1) * q + rnk(s, c, k + 1) == sufprod(s, k + 1) * c[k] + rnk(
            s,
            c,
            k + 1,
        ));
        assert(q == c[k]) by {
            if q != c[k] {
                assert(sufprod(s, k + 1) * q != sufprod(s, k + 1) * c[k]) by (nonlinear_arith)
                    requires
                        sufprod(s, k + 1) > 0,
                        q != c[k],
                ;
            }
        }
    }
}

/// The flat index of `c` reduced modulo the suffix product at `k` equals the
/// partial rank from `k` on.
proof fn lemma_rnk_mod(s: Seq<usize>, c: Seq<int>, k: int)
    requires
        valid_coords(s, c),
        prod(s) > 0,
        0 <= k <= s.len(),
    ensures
        rank_of(s, c) % sufprod(s, k) == rnk(s, c, k),
    decreases k,
{
    lemma_sufprod_pos(s, k);
    lemma_rnk_bounds(s, c, k);
    if k == 0 {
        lemma_small_mod(rank_of(s, c) as nat, prod(s) as nat);
    } else {
        lemma_rnk_mod(s, c, k - 1);
        lemma_sufprod_pos(s, k - 1);
        lemma_rnk_bounds(s, c, 0);
        // rnk(k-1) == c[k-1] * sufprod(k) + rnk(k), 0 <= rnk(k) < sufprod(k)
        lemma_fundamental_div_mod_converse_mod(
            rnk(s, c, k - 1),
            sufprod(s, k),
            c[k - 1],
            rnk(s, c, k),
        );
        // (x % sufprod(k-1)) % sufprod(k) == x % sufprod(k)
        let x = rank_of(s, c);
        lemma_breakdown(x, sufprod(s, k), s[k - 1] as int);
        lemma_mul_is_commutative(s[k - 1] as int, sufprod(s, k));
        lemma_mod_division_less_than_divisor(x, sufprod(s, k));
        lemma_fundamental_div_mod_converse_mod(
            x % sufprod(s, k - 1),
            sufprod(s, k),
            (x / sufprod(s, k)) % (s[k - 1] as int),
            x % sufprod(s, k),
        );
    }
}

/// Row-major dot product agrees with the rank function.
pub proof fn lemma_dot_rm_is_rnk(s: Seq<usize>, c: Seq<int>, k: int)
    requires
        c.len() == s.len(),
        0 <= k,
    ensures
        dotsuf(c, rm_strides(s), k) == rnk(s, c, k),
    decreases s.len() - k,
{
    if k < s.len() {
        lemma_dot_rm_is_rnk(s, c, k + 1);
    }
}

/// Every axis's contribution to an address lies between its extreme
/// contributions.
pub proof fn lemma_dotsuf_bounds(s: Seq<usize>, st: Seq<int>, c: Seq<int>, k: int)
    requires
        valid_coords(s, c),
        st.len() == s.len(),
        0 <= k,
    ensures
        minsuf(s, st, k) <= dotsuf(c, st, k) <= maxsuf(s, st, k),
    decreases s.len() - k,
{
    if k < s.len() {
        lemma_dotsuf_bounds(s, st, c, k + 1);
        lemma_term_bounds(s[k] as int, st[k], c[k]);
    }
}

/// For `0 <= c < s`, the term `c * st` lies between `min0((s-1)*st)` and
/// `max0((s-1)*st)`.
proof fn lemma_term_bounds(s: int, st: int, c: int)
    requires
        0 <= c < s,
    ensures
        min0((s - 1) * st) <= c * st <= max0((s - 1) * st),
{
    if st >= 0 {
        lemma_mul_nonnegative(c, st);
        lemma_mul_inequality(c, s - 1, st);
        lemma_mul_nonnegative(s - 1, st);
    } else {
        assert(c * st <= 0) by (nonlinear_arith)
            requires
                c >= 0,
                st < 0,
        ;
        assert((s - 1) * st <= c * st) by (nonlinear_arith)
            requires
                c <= s - 1,
                st < 0,
        ;
    }
}

/// The extreme-contribution sums only move toward zero as axes are dropped.
pub proof fn lemma_span_mono(s: Seq<usize>, st: Seq<int>, j: int, k: int)
    requires
        0 <= j <= k,
    ensures
        minsuf(s, st, j) <= minsuf(s, st, k) <= 0,
        0 <= maxsuf(s, st, k) <= maxsuf(s, st, j),
    decreases k - j,
{
    if j == k {
        lemma_span_nonpos(s, st, k);
    } else {
        lemma_span_mono(s, st, j + 1, k);
        lemma_span_nonpos(s, st, j);
        lemma_span_nonpos(s, st, j + 1);
    }
}

proof fn lemma_span_nonpos(s: Seq<usize>, st: Seq<int>, k: int)
    ensures
        minsuf(s, st, k) <= 0 <= maxsuf(s, st, k),
    decreases s.len() - k,
{
    if 0 <= k < s.len() && k < st.len() {
        lemma_span_nonpos(s, st, k + 1);
    }
}

/// For row-major strides the most negative contribution is zero and the most
/// positive is one less than the element count.
pub proof fn lemma_rm_span(s: Seq<usize>, k: int)
    requires
        prod(s) > 0,
        0 <= k <= s.len(),
    ensures
        minsuf(s, rm_strides(s), k) == 0,
        maxsuf(s, rm_strides(s), k) == sufprod(s, k) - 1,
    decreases s.len() - k,
{
    if k < s.len() {
        lemma_rm_span(s, k + 1);
        lemma_sufprod_pos(s, k + 1);
        lemma_mul_nonnegative(s[k] - 1, sufprod(s, k + 1));
        lemma_mul_is_distributive_add_other_way(sufprod(s, k + 1), s[k] - 1, 1);
    }
}

/// The element count of a one-axis shape is its single dimension.
pub proof fn lemma_prod_single(s: Seq<usize>)
    requires
        s.len() == 1,
    ensures
        prod(s) == s[0],
{
    assert(sufprod(s, 1) == 1);
    assert(s[0] as int * 1 == s[0] as int) by (nonlinear_arith);
}

// --- sums of integer sequences, for reordering axes ---

/// Sum of the elements of `t` from position `k` on.
pub open spec fn sumsuf(t: Seq<int>, k: int) -> int
    decreases t.len() - k,
{
    if k < 0 || k >= t.len() {
        0
    } else {
        t[k] + sumsuf(t, k + 1)
    }
}

pub open spec fn seq_sum(t: Seq<int>) -> int {
    sumsuf(t, 0)
}

proof fn lemma_sumsuf_shift(t: Seq<int>, k: int)
    requires
        0 <= k <= t.len(),
    ensures
        sumsuf(t.skip(k), 0) == sumsuf(t, k),
    decreases t.len() - k,
{
    if k < t.len() {
        lemma_sumsuf_shift(t, k + 1);
        assert(t.skip(k).skip(1) =~= t.skip(k + 1));
        lemma_sumsuf_step(t.skip(k), t.skip(k + 1));
    }
}

proof fn lemma_sumsuf_step(a: Seq<int>, b: Seq<int>)
    requires
        a.len() > 0,
        b =~= a.skip(1),
    ensures
        sumsuf(a, 0) == a[0] + sumsuf(b, 0),
{
    lemma_sumsuf_congruent(a, 1, b, 0);
}

proof fn lemma_sumsuf_congruent(a: Seq<int>, i: int, b: Seq<int>, j: int)
    requires
        0 <= i <= a.len(),
        0 <= j <= b.len(),
        a.len() - i == b.len() - j,
        forall|d: int| 0 <= d < a.len() - i ==> #[trigger] a[i + d] == b[j + d],
    ensures
        sumsuf(a, i) == sumsuf(b, j),
    decreases a.len() - i,
{
    if i < a.len() {
        assert(a[i] == b[j]) by {
            assert(a[i + 0] == b[j + 0]);
        }
        assert forall|d: int| 0 <= d < a.len() - (i + 1) implies #[trigger] a[(i + 1) + d] == b[(j
            + 1) + d] by {
            assert(a[i + (d + 1)] == b[j + (d + 1)]);
        }
        lemma_sumsuf_congruent(a, i + 1, b, j + 1);
    }
}

/// Removing one element removes exactly its contribution from the sum.
pub proof fn lemma_sum_remove(t: Seq<int>, j: int)
    requires
        0 <= j < t.len(),
    ensures
        seq_sum(t) == seq_sum(t.remove(j)) + t[j],
    decreases j,
{
    if j == 0 {
        assert(t.remove(0) =~= t.skip(1));
        lemma_sumsuf_shift(t, 1);
        lemma_sumsuf_shift(t, 0);
    } else {
        let u = t.skip(1);
        lemma_sum_remove(u, j - 1);
        assert(t.remove(j).skip(1) =~= u.remove(j - 1));
        lemma_sumsuf_step(t, u);
        lemma_sumsuf_step(t.remove(j), t.remove(j).skip(1));
    }
}

/// Whether `p` lists each position of a sequence of length `n` exactly once.
pub open spec fn is_permutation(p: Seq<int>, n: int) -> bool {
    &&& p.len() == n
    &&& forall|k: int| 0 <= k < n ==> 0 <= #[trigger] p[k] < n
    &&& forall|i: int, j: int| 0 <= i < j < n ==> p[i] != p[j]
}

/// A sum is unchanged by reading its terms through a permutation.
pub proof fn lemma_sum_permute(t1: Seq<int>, t2: Seq<int>, p: Seq<int>)
    requires
        is_permutation(p, t1.len() as int),
        t2.len() == t1.len(),
        forall|k: int| 0 <= k < t1.len() ==> t2[k] == t1[#[trigger] p[k]],
    ensures
        seq_sum(t2) == seq_sum(t1),
    decreases t1.len(),
{
    if t1.len() > 0 {
        let j = p[0];
        let t1r = t1.remove(j);
        let t2r = t2.skip(1);
        let pr = Seq::new((p.len() - 1) as nat, |k: int| if p[k + 1] < j { p[k + 1] } else { p[k + 1] - 1 });
        assert forall|i1: int, i2: int| 0 <= i1 < i2 < pr.len() implies pr[i1] != pr[i2] by {
            assert(p[i1 + 1] != p[i2 + 1]);
        }
        assert forall|k: int| 0 <= k < pr.len() implies 0 <= #[trigger] pr[k] < pr.len() by {
            assert(0 <= p[k + 1] < p.len());
            assert(p[k + 1] != j);
        }
        assert forall|k: int| 0 <= k < t1r.len() implies t2r[k] == t1r[#[trigger] pr[k]] by {
            assert(t2r[k] == t2[k + 1]);
            assert(t2[k + 1] == t1[p[k + 1]]);
            if p[k + 1] < j {
                assert(t1r[pr[k]] == t1[p[k + 1]]);
            } else {
                assert(t1r[pr[k]] == t1[p[k + 1]]);
            }
        }
        lemma_sum_permute(t1r, t2r, pr);
        lemma_sum_remove(t1, j);
        lemma_sumsuf_step(t2, t2r);
        lemma_sumsuf_shift(t2r, 0);
    }
}

proof fn lemma_sufprod_congruent(a: Seq<usize>, i: int, b: Seq<usize>, j: int)
    requires
        0 <= i <= a.len(),
        0 <= j <= b.len(),
        a.len() - i == b.len() - j,
        forall|d: int| 0 <= d < a.len() - i ==> #[trigger] a[i + d] == b[j + d],
    ensures
        sufprod(a, i) == sufprod(b, j),
    decreases a.len() - i,
{
    if i < a.len() {
        assert(a[i] == b[j]) by {
            assert(a[i + 0] == b[j + 0]);
        }
        assert forall|d: int| 0 <= d < a.len() - (i + 1) implies #[trigger] a[(i + 1) + d] == b[(j
            + 1) + d] by {
            assert(a[i + (d + 1)] == b[j + (d + 1)]);
        }
        lemma_sufprod_congruent(a, i + 1, b, j + 1);
    }
}

proof fn lemma_prodsuf_step(a: Seq<usize>, b: Seq<usize>)
    requires
        a.len() > 0,
        b =~= a.skip(1),
    ensures
        prod(a) == a[0] * prod(b),
{
    lemma_sufprod_congruent(a, 1, b, 0);
}

/// Removing one dimension divides the element count by it.
pub proof fn lemma_prod_remove(t: Seq<usize>, j: int)
    requires
        0 <= j < t.len(),
    ensures
        prod(t) == t[j] * prod(t.remove(j)),
    decreases j,
{
    if j == 0 {
        assert(t.remove(0) =~= t.skip(1));
        lemma_prodsuf_step(t, t.remove(0));
    } else {
        let u = t.skip(1);
        lemma_prod_remove(u, j - 1);
        assert(t.remove(j).skip(1) =~= u.remove(j - 1));
        lemma_prodsuf_step(t, u);
        lemma_prodsuf_step(t.remove(j), t.remove(j).skip(1));
        assert(t[0] as int * (u[j - 1] as int * prod(u.remove(j - 1))) == u[j - 1] as int * (
        t[0] as int * prod(u.remove(j - 1)))) by (nonlinear_arith);
    }
}

/// The element count is unchanged by reading the dimensions through a
/// permutation.
pub proof fn lemma_prod_permute(t1: Seq<usize>, t2: Seq<usize>, p: Seq<int>)
    requires
        is_permutation(p, t1.len() as int),
        t2.len() == t1.len(),
        forall|k: int| 0 <= k < t1.len() ==> t2[k] == t1[#[trigger] p[k]],
    ensures
        prod(t2) == prod(t1),
    decreases t1.len(),
{
    if t1.len() > 0 {
        let j = p[0];
        let t1r = t1.remove(j);
        let t2r = t2.skip(1);
        let pr = Seq::new(
            (p.len() - 1) as nat,
            |k: int| if p[k + 1] < j {
                p[k + 1]
            } else {
                p[k + 1] - 1
            },
        );
        assert forall|i1: int, i2: int| 0 <= i1 < i2 < pr.len() implies pr[i1] != pr[i2] by {
            assert(p[i1 + 1] != p[i2 + 1]);
        }
        assert forall|k: int| 0 <= k < pr.len() implies 0 <= #[trigger] pr[k] < pr.len() by {
            assert(0 <= p[k + 1] < p.len());
            assert(p[k + 1] != j);
        }
        assert forall|k: int| 0 <= k < t1r.len() implies t2r[k] == t1r[#[trigger] pr[k]] by {
            assert(t2r[k] == t2[k + 1]);
            assert(t2[k + 1] == t1[p[k + 1]]);
            if p[k + 1] < j {
                assert(t1r[pr[k]] == t1[p[k + 1]]);
            } else {
                assert(t1r[pr[k]] == t1[p[k + 1]]);
            }
        }
        lemma_prod_permute(t1r, t2r, pr);
        lemma_prod_remove(t1, j);
        lemma_prodsuf_step(t2, t2.skip(1));
    }
}

/// Replacing one stride moves the dot product by that axis's contribution.
pub proof fn lemma_dotsuf_update_stride(c: Seq<int>, st: Seq<int>, i: int, y: int, k: int)
    requires
        c.len() == st.len(),
        0 <= k <= i < st.len(),
    ensures
        dotsuf(c, st.update(i, y), k) == dotsuf(c, st, k) + c[i] * y - c[i] * st[i],
    decreases st.len() - k,
{
    if k < i {
        lemma_dotsuf_update_stride(c, st, i, y, k + 1);
    } else {
        lemma_dotsuf_eq_from(c, st.update(i, y), st, k + 1);
    }
}

/// Dot products from `k` on only read the strides from `k` on.
pub proof fn lemma_dotsuf_eq_from(c: Seq<int>, st1: Seq<int>, st2: Seq<int>, k: int)
    requires
        st1.len() == st2.len(),
        forall|i: int| k <= i < st1.len() ==> st1[i] == st2[i],
    ensures
        dotsuf(c, st1, k) == dotsuf(c, st2, k),
    decreases c.len() - k,
{
    if 0 <= k < c.len() && k < st1.len() {
        lemma_dotsuf_eq_from(c, st1, st2, k + 1);
    }
}

/// Extreme span sums from `k` on only read the strides from `k` on.
pub proof fn lemma_span_eq_from(s: Seq<usize>, st1: Seq<int>, st2: Seq<int>, k: int)
    requires
        st1.len() == st2.len(),
        forall|i: int| k <= i < st1.len() ==> st1[i] == st2[i],
    ensures
        minsuf(s, st1, k) == minsuf(s, st2, k),
        maxsuf(s, st1, k) == maxsuf(s, st2, k),
    decreases s.len() - k,
{
    if 0 <= k < s.len() && k < st1.len() {
        lemma_span_eq_from(s, st1, st2, k + 1);
    }
}

/// Replacing one stride moves the extreme span sums by that axis's extreme
/// contributions.
pub proof fn lemma_span_update_stride(s: Seq<usize>, st: Seq<int>, i: int, y: int, k: int)
    requires
        s.len() == st.len(),
        0 <= k <= i < st.len(),
    ensures
        minsuf(s, st.update(i, y), k) == minsuf(s, st, k) + min0((s[i] - 1) * y) - min0(
            (s[i] - 1) * st[i],
        ),
        maxsuf(s, st.update(i, y), k) == maxsuf(s, st, k) + max0((s[i] - 1) * y) - max0(
            (s[i] - 1) * st[i],
        ),
    decreases st.len() - k,
{
    if k < i {
        lemma_span_update_stride(s, st, i, y, k + 1);
    } else {
        lemma_span_eq_from(s, st.update(i, y), st, k + 1);
    }
}

/// Replacing one coordinate moves the dot product by that axis's
/// contribution.
pub proof fn lemma_dotsuf_update_coord(c: Seq<int>, st: Seq<int>, i: int, x: int, k: int)
    requires
        c.len() == st.len(),
        0 <= k <= i < c.len(),
    ensures
        dotsuf(c.update(i, x), st, k) == dotsuf(c, st, k) + x * st[i] - c[i] * st[i],
    decreases c.len() - k,
{
    if k < i {
        lemma_dotsuf_update_coord(c, st, i, x, k + 1);
    } else {
        lemma_coord_eq_from(c.update(i, x), c, st, k + 1);
    }
}

/// Dot products from `k` on only read the coordinates from `k` on.
pub proof fn lemma_coord_eq_from(c1: Seq<int>, c2: Seq<int>, st: Seq<int>, k: int)
    requires
        c1.len() == c2.len(),
        forall|i: int| k <= i < c1.len() ==> c1[i] == c2[i],
    ensures
        dotsuf(c1, st, k) == dotsuf(c2, st, k),
    decreases c1.len() - k,
{
    if 0 <= k < c1.len() && k < st.len() {
        lemma_coord_eq_from(c1, c2, st, k + 1);
    }
}

/// The per-axis extreme and dot contributions, as explicit term sequences, so
/// sums over them can be reordered.
pub open spec fn minterms(s: Seq<usize>, st: Seq<int>) -> Seq<int> {
    Seq::new(s.len(), |k: int| min0((s[k] - 1) * st[k]))
}

pub open spec fn maxterms(s: Seq<usize>, st: Seq<int>) -> Seq<int> {
    Seq::new(s.len(), |k: int| max0((s[k] - 1) * st[k]))
}

pub open spec fn dotterms(c: Seq<int>, st: Seq<int>) -> Seq<int> {
    Seq::new(c.len(), |k: int| c[k] * st[k])
}

pub proof fn lemma_minsuf_is_sum(s: Seq<usize>, st: Seq<int>, k: int)
    requires
        st.len() == s.len(),
        0 <= k,
    ensures
        sumsuf(minterms(s, st), k) == minsuf(s, st, k),
        sumsuf(maxterms(s, st), k) == maxsuf(s, st, k),
    decreases s.len() - k,
{
    if k < s.len() {
        lemma_minsuf_is_sum(s, st, k + 1);
    }
}

pub proof fn lemma_dotsuf_is_sum(c: Seq<int>, st: Seq<int>, k: int)
    requires
        st.len() == c.len(),
        0 <= k,
    ensures
        sumsuf(dotterms(c, st), k) == dotsuf(c, st, k),
    decreases c.len() - k,
{
    if k < c.len() {
        lemma_dotsuf_is_sum(c, st, k + 1);
    }
}

// --- executable helpers ---

/// Computes the element count of a shape; the caller must know it fits.
pub fn prod_exec(shape: &Vec<usize>) -> (r: usize)
    requires
        prod(shape@) <= usize::MAX,
    ensures
        r == prod(shape@),
{
    // A zero dimension forces the product to zero no matter how large the
    // other dimensions are, so handle that case before multiplying.
    let n = shape.len();
    let mut i: usize = 0;
    while i < n
        invariant
            0 <= i <= n,
            n == shape@.len(),
            forall|k: int| 0 <= k < i ==> (#[trigger] shape@[k]) >= 1,
        decreases n - i,
    {
        if shape[i] == 0 {
            proof {
                lemma_sufprod_zero(shape@, i as int);
            }
            return 0;
        }
        i += 1;
    }
    // All dimensions are at least 1: suffix products are monotone, so no
    // intermediate product can exceed the final one.
    proof {
        lemma_sufprod_all_pos(shape@, 0);
    }
    let mut acc: usize = 1;
    let mut k: usize = n;
    while k > 0
        invariant
            0 <= k <= n,
            n == shape@.len(),
            prod(shape@) <= usize::MAX,
            forall|i2: int| 0 <= i2 < n ==> (#[trigger] shape@[i2]) >= 1,
            acc == sufprod(shape@, k as int),
        decreases k,
    {
        proof {
            lemma_sufprod_le_gen(shape@, 0, k as int - 1);
            lemma_sufprod_pos_all(shape@, k as int - 1);
            lemma_sufprod_pos_all(shape@, k as int);
            lemma_mul_nonnegative(shape@[k - 1] as int, sufprod(shape@, k as int));
        }
        let term = shape[k - 1];
        acc = term * acc;
        k -= 1;
    }
    acc
}

proof fn lemma_sufprod_zero(s: Seq<usize>, i: int)
    requires
        0 <= i < s.len(),
        s[i] == 0,
    ensures
        prod(s) == 0,
{
    lemma_sufprod_zero_suf(s, 0, i);
}

proof fn lemma_sufprod_zero_suf(s: Seq<usize>, k: int, i: int)
    requires
        0 <= k <= i < s.len(),
        s[i] == 0,
    ensures
        sufprod(s, k) == 0,
    decreases i - k,
{
    if k == i {
        assert(0 * sufprod(s, k + 1) == 0) by (nonlinear_arith);
    } else {
        lemma_sufprod_zero_suf(s, k + 1, i);
        assert(s[k] * 0 == 0) by (nonlinear_arith);
    }
}

proof fn lemma_sufprod_all_pos(s: Seq<usize>, k: int)
    requires
        forall|i: int| 0 <= i < s.len() ==> (#[trigger] s[i]) >= 1,
        0 <= k,
    ensures
        sufprod(s, k) >= 1,
    decreases s.len() - k,
{
    if k < s.len() {
        lemma_sufprod_all_pos(s, k + 1);
        lemma_mul_inequality(1, s[k] as int, sufprod(s, k + 1));
    }
}

proof fn lemma_sufprod_pos_all(s: Seq<usize>, k: int)
    requires
        forall|i: int| 0 <= i < s.len() ==> (#[trigger] s[i]) >= 1,
        0 <= k,
    ensures
        sufprod(s, k) >= 1,
{
    lemma_sufprod_all_pos(s, k);
}

/// Suffix products shrink as `k` grows, for all-positive dimensions.
proof fn lemma_sufprod_le_gen(s: Seq<usize>, j: int, k: int)
    requires
        forall|i: int| 0 <= i < s.len() ==> (#[trigger] s[i]) >= 1,
        0 <= j <= k,
    ensures
        sufprod(s, k) <= sufprod(s, j),
    decreases k - j,
{
    if j < k {
        lemma_sufprod_le_gen(s, j + 1, k);
        if j < s.len() {
            lemma_sufprod_all_pos(s, j + 1);
            lemma_mul_inequality(1, s[j] as int, sufprod(s, j + 1));
        }
    }
}

/// Computes all suffix products of a nonempty-product shape: `r[k] ==
/// sufprod(shape, k)`, with one extra trailing 1.
pub fn suffix_products(shape: &Vec<usize>) -> (r: Vec<usize>)
    requires
        prod(shape@) > 0,
        prod(shape@) <= usize::MAX,
    ensures
        r@.len() == shape@.len() + 1,
        forall|k: int| 0 <= k <= shape@.len() ==> (#[trigger] r@[k]) == sufprod(shape@, k),
{
    let n = shape.len();
    let mut r: Vec<usize> = Vec::new();
    let mut k: usize = 0;
    // Build in reverse then index from the end: simpler to build forward by
    // filling a vector of the right size.
    let mut acc: usize = 1;
    let mut rev: Vec<usize> = Vec::new();
    rev.push(1);
    while k < n
        invariant
            0 <= k <= n,
            n == shape@.len(),
            prod(shape@) > 0,
            prod(shape@) <= usize::MAX,
            acc == sufprod(shape@, n - k),
            rev@.len() == k + 1,
            forall|i: int| 0 <= i <= k ==> (#[trigger] rev@[i]) == sufprod(shape@, n - i),
        decreases n - k,
    {
        proof {
            lemma_sufprod_pos(shape@, (n - k - 1) as int);
            lemma_sufprod_pos(shape@, (n - k) as int);
            lemma_sufprod_le(shape@, (n - k - 1) as int, n as int - k);
            lemma_sufprod_le(shape@, 0, (n - k - 1) as int);
            lemma_mul_nonnegative(shape@[n - k - 1] as int, sufprod(shape@, n as int - k));
        }
        acc = shape[n - k - 1] * acc;
        rev.push(acc);
        k += 1;
    }
    let mut i: usize = 0;
    while i < n
        invariant
            0 <= i <= n,
            n == shape@.len(),
            rev@.len() == n + 1,
            forall|d: int| 0 <= d <= n ==> (#[trigger] rev@[d]) == sufprod(shape@, n - d),
            r@.len() == i,
            forall|d: int| 0 <= d < i ==> (#[trigger] r@[d]) == sufprod(shape@, d),
        decreases n - i,
    {
        r.push(rev[n - i]);
        i += 1;
    }
    r.push(rev[0]);
    r
}

} // verus!
