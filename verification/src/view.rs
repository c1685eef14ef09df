use vstd::prelude::*;
use crate::owned::{Buffer, NDArrayOwned};
use crate::shape::{
    dotsuf, lemma_dot_rm_is_rnk, lemma_dotsuf_bounds, lemma_rank_unrank, lemma_rm_span,
    lemma_span_mono, lemma_sufprod_le, lemma_sufprod_pos, lemma_unrank_valid, maxsuf, minsuf,
    prod, rm_strides, suffix_products, sufprod, unrank,
};
use crate::value::{vtype, Value};

verus! {

// A View: a non-owning, shape/stride-tagged window into the buffer of one
// Owned array. The element at flat position `j` of the view, in row-major
// iteration order, lives at buffer address `offset + unrank(shape, j) dotted with
// the strides`. Well-formedness demands that every such address is in bounds and
// that distinct positions have distinct addresses, so writing through a view
// is unambiguous.
pub struct ViewDesc {
    pub offset: usize,
    pub shape: Vec<usize>,
    pub strides: Vec<i64>,
}

impl ViewDesc {
    pub open spec fn numel(&self) -> int {
        prod(self.shape@)
    }

    pub open spec fn strides_int(&self) -> Seq<int> {
        self.strides@.map_values(|x: i64| x as int)
    }

    /// Buffer address of the view's `j`-th element in iteration order.
    pub open spec fn addr(&self, j: int) -> int {
        self.offset + dotsuf(unrank(self.shape@, j), self.strides_int(), 0)
    }

    /// Every address the view can form lies inside a buffer of length `n`,
    /// shown through the per-axis extreme contributions.
    pub open spec fn in_bounds(&self, n: int) -> bool {
        &&& self.strides@.len() == self.shape@.len()
        &&& self.numel() <= i64::MAX
        &&& self.numel() <= n
        &&& self.numel() > 0 ==> {
            &&& 0 <= self.offset + minsuf(self.shape@, self.strides_int(), 0)
            &&& self.offset + maxsuf(self.shape@, self.strides_int(), 0) < n
        }
    }

    /// Distinct positions of the view alias distinct buffer cells.
    pub open spec fn injective(&self) -> bool {
        forall|j1: int, j2: int|
            #![trigger self.addr(j1), self.addr(j2)]
            0 <= j1 < j2 < self.numel() ==> self.addr(j1) != self.addr(j2)
    }

    pub open spec fn wf(&self, n: int) -> bool {
        self.in_bounds(n) && self.injective()
    }

    /// The elements the view denotes over a buffer, in iteration order.
    pub open spec fn view_seq(&self, buf: Seq<Value>) -> Seq<Value> {
        Seq::new(self.numel() as nat, |j: int| buf[self.addr(j)])
    }

    /// Whether some of the first `m` positions of the view alias buffer
    /// position `p`.
    pub open spec fn covered_upto(&self, p: int, m: int) -> bool {
        exists|j: int| 0 <= j < m && self.addr(j) == p
    }

    /// Whether buffer position `p` is aliased by the view.
    pub open spec fn covers(&self, p: int) -> bool {
        self.covered_upto(p, self.numel())
    }

    /// Buffer address of the element at coordinate tuple `c`.
    pub open spec fn addr_at(&self, c: Seq<int>) -> int {
        self.offset + dotsuf(c, self.strides_int(), 0)
    }

    /// The view walks the buffer in exactly row-major order from its offset.
    pub open spec fn is_contiguous(&self) -> bool {
        self.strides_int() =~= rm_strides(self.shape@)
    }

    pub fn len(&self) -> (n: usize)
        requires
            self.numel() <= usize::MAX,
        ensures
            n == self.numel(),
    {
        crate::shape::prod_exec(&self.shape)
    }

    pub fn shape(&self) -> (s: &Vec<usize>)
        ensures
            s@ == self.shape@,
    {
        &self.shape
    }
}

/// Every element address of a well-formed view is a valid buffer index.
pub proof fn lemma_addr_in_bounds(v: &ViewDesc, n: int, j: int)
    requires
        v.in_bounds(n),
        0 <= j < v.numel(),
    ensures
        0 <= v.addr(j) < n,
{
    lemma_unrank_valid(v.shape@, j);
    lemma_dotsuf_bounds(v.shape@, v.strides_int(), unrank(v.shape@, j), 0);
}

/// A contiguous view's `j`-th element sits `j` cells past its offset.
pub proof fn lemma_contig_addr(v: &ViewDesc, j: int)
    requires
        v.is_contiguous(),
        v.strides@.len() == v.shape@.len(),
        0 <= j < v.numel(),
    ensures
        v.addr(j) == v.offset + j,
{
    lemma_unrank_valid(v.shape@, j);
    lemma_dotsuf_congruent(unrank(v.shape@, j), v.strides_int(), rm_strides(v.shape@), 0);
    lemma_dot_rm_is_rnk(v.shape@, unrank(v.shape@, j), 0);
    lemma_rank_unrank(v.shape@, j);
}

/// Dot products only read the strides pointwise.
pub proof fn lemma_dotsuf_congruent(c: Seq<int>, st1: Seq<int>, st2: Seq<int>, k: int)
    requires
        st1.len() == st2.len(),
        forall|i: int| 0 <= i < st1.len() ==> st1[i] == st2[i],
        0 <= k,
    ensures
        dotsuf(c, st1, k) == dotsuf(c, st2, k),
    decreases c.len() - k,
{
    if k < c.len() && k < st1.len() {
        lemma_dotsuf_congruent(c, st1, st2, k + 1);
    }
}

/// The identity view of a whole Owned array: offset zero, row-major strides.
pub fn full_view(a: &NDArrayOwned) -> (v: ViewDesc)
    requires
        a.wf(),
    ensures
        v.wf(a.elems().len() as int),
        v.shape@ == a.shape@,
        v.numel() == a.elems().len(),
        v.numel() > 0 ==> v.is_contiguous(),
        v.offset == 0,
        v.view_seq(a.elems()) =~= a.elems(),
{
    let ndim = a.shape.len();
    let mut strides: Vec<i64> = Vec::new();
    let n = a.data.len();
    if n == 0 {
        // No element is ever addressed, so the strides are immaterial.
        let mut k: usize = 0;
        while k < ndim
            invariant
                0 <= k <= ndim,
                strides@.len() == k,
            decreases ndim - k,
        {
            strides.push(0);
            k += 1;
        }
        let v = ViewDesc { offset: 0, shape: a.shape.clone(), strides };
        v
    } else {
        let sp = suffix_products(&a.shape);
        let mut k: usize = 0;
        while k < ndim
            invariant
                0 <= k <= ndim,
                ndim == a.shape@.len(),
                prod(a.shape@) > 0,
                prod(a.shape@) <= i64::MAX,
                sp@.len() == ndim + 1,
                forall|i: int| 0 <= i <= ndim ==> (#[trigger] sp@[i]) == sufprod(a.shape@, i),
                strides@.len() == k,
                forall|i: int|
                    0 <= i < k ==> (#[trigger] strides@[i]) as int == sufprod(a.shape@, i + 1),
            decreases ndim - k,
        {
            proof {
                lemma_sufprod_pos(a.shape@, k as int + 1);
                lemma_sufprod_le(a.shape@, 0, k as int + 1);
            }
            strides.push(sp[k + 1] as i64);
            k += 1;
        }
        let v = ViewDesc { offset: 0, shape: a.shape.clone(), strides };
        proof {
            assert(v.strides_int() =~= rm_strides(v.shape@));
            lemma_rm_span(v.shape@, 0);
            assert forall|j1: int, j2: int|
                #![trigger v.addr(j1), v.addr(j2)]
                0 <= j1 < j2 < v.numel() implies v.addr(j1) != v.addr(j2) by {
                lemma_contig_addr(&v, j1);
                lemma_contig_addr(&v, j2);
            }
            assert forall|j: int| 0 <= j < v.numel() implies v.view_seq(a.elems())[j]
                == a.elems()[j] by {
                lemma_contig_addr(&v, j);
            }
        }
        v
    }
}

/// A well-formed view of no elements over any buffer.
pub fn empty_view(shape: Vec<usize>, Ghost(n): Ghost<int>) -> (r: ViewDesc)
    requires
        prod(shape@) == 0,
        n >= 0,
    ensures
        r.wf(n),
        r.shape@ == shape@,
        r.numel() == 0,
{
    let ndim = shape.len();
    let mut strides: Vec<i64> = Vec::new();
    let mut k: usize = 0;
    while k < ndim
        invariant
            strides@.len() == k,
            0 <= k <= ndim,
        decreases ndim - k,
    {
        strides.push(0);
        k += 1;
    }
    ViewDesc { offset: 0, shape, strides }
}

/// A row-major view of `prod(shape)` elements starting at `offset`.
pub fn rm_view(offset: usize, shape: Vec<usize>, Ghost(n): Ghost<int>) -> (r: ViewDesc)
    requires
        prod(shape@) > 0,
        prod(shape@) <= i64::MAX,
        prod(shape@) <= usize::MAX,
        offset + prod(shape@) <= n,
    ensures
        r.wf(n),
        r.offset == offset,
        r.shape@ == shape@,
        r.is_contiguous(),
        forall|j: int| 0 <= j < r.numel() ==> #[trigger] r.addr(j) == offset + j,
{
    let ndim = shape.len();
    let sp = suffix_products(&shape);
    let mut strides: Vec<i64> = Vec::new();
    let mut k: usize = 0;
    while k < ndim
        invariant
            0 <= k <= ndim,
            ndim == shape@.len(),
            prod(shape@) > 0,
            prod(shape@) <= i64::MAX,
            sp@.len() == ndim + 1,
            forall|i: int| 0 <= i <= ndim ==> (#[trigger] sp@[i]) == sufprod(shape@, i),
            strides@.len() == k,
            forall|i: int| 0 <= i < k ==> (#[trigger] strides@[i]) as int == sufprod(shape@, i + 1),
        decreases ndim - k,
    {
        proof {
            lemma_sufprod_pos(shape@, k as int + 1);
            lemma_sufprod_le(shape@, 0, k as int + 1);
        }
        strides.push(sp[k + 1] as i64);
        k += 1;
    }
    let v = ViewDesc { offset, shape, strides };
    proof {
        assert(v.strides_int() =~= rm_strides(v.shape@));
        lemma_rm_span(v.shape@, 0);
        assert forall|j: int| 0 <= j < v.numel() implies #[trigger] v.addr(j) == offset + j by {
            lemma_contig_addr(&v, j);
        }
        assert forall|j1: int, j2: int|
            #![trigger v.addr(j1), v.addr(j2)]
            0 <= j1 < j2 < v.numel() implies v.addr(j1) != v.addr(j2) by {
            lemma_contig_addr(&v, j1);
            lemma_contig_addr(&v, j2);
        }
    }
    v
}

/// A view over the same cells read in another shape of equal element count;
/// defined on contiguous (or empty) views, which reshape in place.
pub fn reshape_view(v: &ViewDesc, new_shape: Vec<usize>, Ghost(n): Ghost<int>) -> (r: ViewDesc)
    requires
        v.wf(n),
        0 <= n <= usize::MAX,
        v.is_contiguous() || v.numel() == 0,
        prod(new_shape@) == v.numel(),
    ensures
        r.wf(n),
        r.shape@ == new_shape@,
        r.numel() == v.numel(),
        r.numel() > 0 ==> r.is_contiguous() && r.offset == v.offset,
        forall|j: int| 0 <= j < r.numel() ==> #[trigger] r.addr(j) == v.addr(j),
{
    let total = crate::shape::prod_exec(&new_shape);
    if total == 0 {
        empty_view(new_shape, Ghost(n))
    } else {
        proof {
            // the last element of the contiguous source shows offset + numel <= n
            lemma_contig_addr(v, v.numel() - 1);
            lemma_addr_in_bounds(v, n, v.numel() - 1);
        }
        let r = rm_view(v.offset, new_shape, Ghost(n));
        proof {
            assert forall|j: int| 0 <= j < r.numel() implies #[trigger] r.addr(j) == v.addr(j) by {
                lemma_contig_addr(v, j);
            }
        }
        r
    }
}

/// Computes the buffer address of the view's `j`-th element. `sp` holds the
/// suffix products of the view's shape.
pub fn addr_exec(v: &ViewDesc, j: usize, sp: &Vec<usize>, Ghost(n): Ghost<int>) -> (a: usize)
    requires
        v.in_bounds(n),
        0 <= n <= usize::MAX,
        (j as int) < v.numel(),
        sp@.len() == v.shape@.len() + 1,
        forall|i: int| 0 <= i <= v.shape@.len() ==> (#[trigger] sp@[i]) == sufprod(v.shape@, i),
    ensures
        a as int == v.addr(j as int),
        0 <= v.addr(j as int) < n,
{
    let ndim = v.shape.len();
    let ghost s = v.shape@;
    let ghost st = v.strides_int();
    let ghost c = unrank(s, j as int);
    proof {
        lemma_unrank_valid(s, j as int);
        lemma_dotsuf_bounds(s, st, c, 0);
        lemma_sufprod_pos(s, 0);
    }
    let mut acc: i128 = 0;
    let mut k: usize = ndim;
    while k > 0
        invariant
            v.in_bounds(n),
            0 <= n <= usize::MAX,
            (j as int) < v.numel(),
            v.numel() > 0,
            0 <= k <= ndim,
            ndim == s.len(),
            s == v.shape@,
            st == v.strides_int(),
            c == unrank(s, j as int),
            crate::shape::valid_coords(s, c),
            sp@.len() == ndim + 1,
            forall|i: int| 0 <= i <= ndim ==> (#[trigger] sp@[i]) == sufprod(s, i),
            acc == dotsuf(c, st, k as int),
        decreases k,
    {
        k -= 1;
        proof {
            lemma_sufprod_pos(s, k as int + 1);
            lemma_dotsuf_bounds(s, st, c, k as int);
            lemma_dotsuf_bounds(s, st, c, k as int + 1);
            lemma_span_mono(s, st, 0, k as int);
            lemma_span_mono(s, st, 0, k as int + 1);
        }
        let ci: usize = (j / sp[k + 1]) % v.shape[k];
        proof {
            assert(ci as int == c[k as int]);
        }
        let sti: i64 = v.strides[k];
        proof {
            lemma_mul_fits_i128(ci as int, sti as int);
        }
        let term: i128 = (ci as i128) * (sti as i128);
        proof {
            assert(term == c[k as int] * st[k as int]);
            assert(acc + term == dotsuf(c, st, k as int));
        }
        acc = acc + term;
    }
    let res: i128 = (v.offset as i128) + acc;
    proof {
        assert(res == v.addr(j as int));
    }
    res as usize
}

proof fn lemma_mul_fits_i128(c: int, st: int)
    requires
        0 <= c <= usize::MAX,
        i64::MIN <= st <= i64::MAX,
    ensures
        i128::MIN <= c * st <= i128::MAX,
{
    if st >= 0 {
        vstd::arithmetic::mul::lemma_mul_upper_bound(c, usize::MAX as int, st, i64::MAX as int);
        vstd::arithmetic::mul::lemma_mul_nonnegative(c, st);
    } else {
        assert(c * st == -(c * (-st))) by (nonlinear_arith);
        vstd::arithmetic::mul::lemma_mul_upper_bound(c, usize::MAX as int, -st, -(i64::MIN as int));
        vstd::arithmetic::mul::lemma_mul_nonnegative(c, -st);
    }
}

/// Copies the elements a view denotes into a fresh contiguous buffer, in
/// iteration order.
pub fn read_view(buf: &Buffer, v: &ViewDesc) -> (out: Buffer)
    requires
        v.wf(buf.vals().len() as int),
    ensures
        out.elem_type() == buf.elem_type(),
        out.vals() =~= v.view_seq(buf.vals()),
{
    let ghost n = buf.vals().len() as int;
    let nbuf = buf.len();
    let t = buf.elem_type_exec();
    let mut out = Buffer::empty(t);
    let total = crate::shape::prod_exec(&v.shape);
    if total == 0 {
        proof {
            assert(v.view_seq(buf.vals()).len() == 0);
        }
        return out;
    }
    let sp = suffix_products(&v.shape);
    let mut j: usize = 0;
    while j < total
        invariant
            0 <= j <= total,
            v.wf(n),
            n == buf.vals().len(),
            0 <= n <= usize::MAX,
            total == v.numel(),
            0 < total <= usize::MAX,
            sp@.len() == v.shape@.len() + 1,
            forall|i: int| 0 <= i <= v.shape@.len() ==> (#[trigger] sp@[i]) == sufprod(v.shape@, i),
            out.elem_type() == buf.elem_type(),
            out.vals().len() == j,
            forall|i: int| 0 <= i < j ==> out.vals()[i] == buf.vals()[v.addr(i)],
        decreases total - j,
    {
        let a = addr_exec(v, j, &sp, Ghost(n));
        let val = buf.get(a);
        out.push(val);
        j += 1;
    }
    proof {
        assert(out.vals().len() == v.view_seq(buf.vals()).len());
        assert forall|i: int| 0 <= i < v.numel() implies out.vals()[i] == v.view_seq(
            buf.vals(),
        )[i] by {
            lemma_addr_in_bounds(v, n, i);
        }
    }
    out
}

/// Computes the buffer address of the element at `coords`.
pub fn addr_at_exec(v: &ViewDesc, coords: &Vec<usize>, Ghost(n): Ghost<int>) -> (a: usize)
    requires
        v.in_bounds(n),
        0 <= n <= usize::MAX,
        v.numel() > 0,
        coords@.len() == v.shape@.len(),
        crate::shape::valid_coords(v.shape@, coords_int(coords@)),
    ensures
        a as int == v.addr_at(coords_int(coords@)),
        0 <= a < n,
{
    let ndim = v.shape.len();
    let ghost s = v.shape@;
    let ghost st = v.strides_int();
    let ghost c = coords_int(coords@);
    proof {
        lemma_dotsuf_bounds(s, st, c, 0);
    }
    let mut acc: i128 = 0;
    let mut k: usize = ndim;
    while k > 0
        invariant
            v.in_bounds(n),
            0 <= n <= usize::MAX,
            v.numel() > 0,
            0 <= k <= ndim,
            ndim == s.len(),
            s == v.shape@,
            st == v.strides_int(),
            coords@.len() == ndim,
            c == coords_int(coords@),
            crate::shape::valid_coords(s, c),
            acc == dotsuf(c, st, k as int),
        decreases k,
    {
        k -= 1;
        proof {
            lemma_dotsuf_bounds(s, st, c, k as int);
            lemma_dotsuf_bounds(s, st, c, k as int + 1);
            lemma_span_mono(s, st, 0, k as int);
            lemma_span_mono(s, st, 0, k as int + 1);
        }
        let ci: usize = coords[k];
        let sti: i64 = v.strides[k];
        proof {
            lemma_mul_fits_i128(ci as int, sti as int);
            assert(acc + (ci as i128) * (sti as i128) == dotsuf(c, st, k as int));
        }
        let term: i128 = (ci as i128) * (sti as i128);
        acc = acc + term;
    }
    let res: i128 = (v.offset as i128) + acc;
    res as usize
}

pub open spec fn coords_int(c: Seq<usize>) -> Seq<int> {
    c.map_values(|x: usize| x as int)
}

/// Distinct valid coordinate tuples of a well-formed view alias distinct
/// buffer cells.
pub proof fn lemma_addr_at_injective(v: &ViewDesc, d1: Seq<int>, d2: Seq<int>)
    requires
        v.injective(),
        v.numel() > 0,
        crate::shape::valid_coords(v.shape@, d1),
        crate::shape::valid_coords(v.shape@, d2),
        d1 != d2,
    ensures
        v.addr_at(d1) != v.addr_at(d2),
{
    let s = v.shape@;
    crate::shape::lemma_unrank_rank(s, d1);
    crate::shape::lemma_unrank_rank(s, d2);
    let r1 = crate::shape::rank_of(s, d1);
    let r2 = crate::shape::rank_of(s, d2);
    assert(r1 != r2) by {
        if r1 == r2 {
            assert(d1 =~= d2);
        }
    }
    assert(v.addr(r1) == v.addr_at(d1));
    assert(v.addr(r2) == v.addr_at(d2));
    if r1 < r2 {
        assert(v.addr(r1) != v.addr(r2));
    } else {
        assert(v.addr(r2) != v.addr(r1));
    }
}

/// Pointwise smaller shapes have no more elements.
pub proof fn lemma_prod_pointwise_le(a: Seq<usize>, b: Seq<usize>, k: int)
    requires
        a.len() == b.len(),
        forall|i: int| 0 <= i < a.len() ==> (#[trigger] a[i]) <= b[i],
        0 <= k,
    ensures
        0 <= sufprod(a, k) <= sufprod(b, k),
    decreases a.len() - k,
{
    if k < a.len() {
        lemma_prod_pointwise_le(a, b, k + 1);
        crate::shape::lemma_sufprod_nonneg(a, k + 1);
        vstd::arithmetic::mul::lemma_mul_nonnegative(a[k] as int, sufprod(a, k + 1));
        vstd::arithmetic::mul::lemma_mul_inequality(a[k] as int, b[k] as int, sufprod(a, k + 1));
        vstd::arithmetic::mul::lemma_mul_inequality(sufprod(a, k + 1), sufprod(b, k + 1), b[k] as int);
        vstd::arithmetic::mul::lemma_mul_is_commutative(sufprod(a, k + 1), b[k] as int);
        vstd::arithmetic::mul::lemma_mul_is_commutative(sufprod(b, k + 1), b[k] as int);
    }
}

/// A single axis's extreme contribution lies within the whole span sums.
proof fn lemma_span_term(s: Seq<usize>, st: Seq<int>, k: int, j: int)
    requires
        st.len() == s.len(),
        0 <= j <= k < s.len(),
    ensures
        minsuf(s, st, j) <= crate::shape::min0((s[k] - 1) * st[k]),
        crate::shape::max0((s[k] - 1) * st[k]) <= maxsuf(s, st, j),
    decreases k - j,
{
    if j == k {
        lemma_span_mono(s, st, j + 1, j + 1);
    } else {
        lemma_span_term(s, st, k, j + 1);
        lemma_span_mono(s, st, j, j);
    }
}

// --- slicing ---

/// Validated per-axis slice arguments: a nonzero step, a first index and a
/// length whose last selected index is still on the axis.
pub open spec fn slice_axis_ok(s: usize, f: usize, m: usize, st: i64) -> bool {
    &&& st != 0
    &&& m <= s
    &&& m > 0 ==> {
        &&& (f as int) < s
        &&& 0 <= f + (m - 1) * st < s
    }
}

/// The source coordinates a slice position maps to.
pub open spec fn slice_src(firstI: Seq<int>, stepsI: Seq<int>, c: Seq<int>) -> Seq<int> {
    Seq::new(c.len(), |i: int| firstI[i] + c[i] * stepsI[i])
}

/// Per-axis coordinate of the slice whose address is the smallest reachable.
pub open spec fn slice_cmin(
    firstI: Seq<int>,
    stepsI: Seq<int>,
    lens: Seq<usize>,
    newst: Seq<int>,
) -> Seq<int> {
    Seq::new(
        lens.len(),
        |i: int|
            firstI[i] + if (lens[i] - 1) * newst[i] < 0 {
                (lens[i] - 1) * stepsI[i]
            } else {
                0
            },
    )
}

/// Per-axis coordinate of the slice whose address is the largest reachable.
pub open spec fn slice_cmax(
    firstI: Seq<int>,
    stepsI: Seq<int>,
    lens: Seq<usize>,
    newst: Seq<int>,
) -> Seq<int> {
    Seq::new(
        lens.len(),
        |i: int|
            firstI[i] + if (lens[i] - 1) * newst[i] > 0 {
                (lens[i] - 1) * stepsI[i]
            } else {
                0
            },
    )
}

/// The slice strides scale the source strides by the steps; degenerate axes
/// carry stride zero.
pub open spec fn slice_newst(st: Seq<int>, stepsI: Seq<int>, lens: Seq<usize>) -> Seq<int> {
    Seq::new(st.len(), |i: int| if lens[i] <= 1 { 0int } else { st[i] * stepsI[i] })
}

/// The extreme span sums of a slice, shifted by the first-coordinate offset,
/// are the source addresses of its extreme coordinates.
proof fn lemma_slice_span(
    st: Seq<int>,
    firstI: Seq<int>,
    stepsI: Seq<int>,
    lens: Seq<usize>,
    k: int,
)
    requires
        st.len() == lens.len(),
        firstI.len() == lens.len(),
        stepsI.len() == lens.len(),
        0 <= k,
    ensures
        minsuf(lens, slice_newst(st, stepsI, lens), k) + dotsuf(firstI, st, k) == dotsuf(
            slice_cmin(firstI, stepsI, lens, slice_newst(st, stepsI, lens)),
            st,
            k,
        ),
        maxsuf(lens, slice_newst(st, stepsI, lens), k) + dotsuf(firstI, st, k) == dotsuf(
            slice_cmax(firstI, stepsI, lens, slice_newst(st, stepsI, lens)),
            st,
            k,
        ),
    decreases lens.len() - k,
{
    let newst = slice_newst(st, stepsI, lens);
    if k < lens.len() {
        lemma_slice_span(st, firstI, stepsI, lens, k + 1);
        let m = lens[k] as int;
        let f = firstI[k];
        let sp = stepsI[k];
        let sk = st[k];
        if m <= 1 {
            assert((m - 1) * 0 == 0) by (nonlinear_arith);
        } else {
            assert((f + (m - 1) * sp) * sk == f * sk + (m - 1) * (sk * sp)) by (nonlinear_arith);
        }
    }
}

/// The address of a slice position, shifted by the first-coordinate offset,
/// is the source address of the coordinates it selects.
proof fn lemma_slice_dot(
    st: Seq<int>,
    firstI: Seq<int>,
    stepsI: Seq<int>,
    lens: Seq<usize>,
    c: Seq<int>,
    k: int,
)
    requires
        st.len() == lens.len(),
        firstI.len() == lens.len(),
        stepsI.len() == lens.len(),
        c.len() == lens.len(),
        forall|i: int| 0 <= i < lens.len() && lens[i] <= 1 ==> #[trigger] c[i] == 0,
        0 <= k,
    ensures
        dotsuf(c, slice_newst(st, stepsI, lens), k) + dotsuf(firstI, st, k) == dotsuf(
            slice_src(firstI, stepsI, c),
            st,
            k,
        ),
    decreases lens.len() - k,
{
    let newst = slice_newst(st, stepsI, lens);
    if k < lens.len() {
        lemma_slice_dot(st, firstI, stepsI, lens, c, k + 1);
        let m = lens[k] as int;
        let f = firstI[k];
        let sp = stepsI[k];
        let sk = st[k];
        let ck = c[k];
        if m <= 1 {
            assert(0int * 0int == 0 && (f + 0 * sp) == f) by (nonlinear_arith);
        } else {
            assert(ck * (sk * sp) + f * sk == (f + ck * sp) * sk) by (nonlinear_arith);
        }
    }
}

/// Every index a valid slice axis selects is on the source axis.
pub proof fn lemma_slice_coord_valid(s: int, f: int, m: int, st: int, t: int)
    requires
        0 <= f < s,
        0 <= t < m,
        0 <= f + (m - 1) * st < s,
        st != 0,
    ensures
        0 <= f + t * st < s,
{
    if st > 0 {
        vstd::arithmetic::mul::lemma_mul_nonnegative(t, st);
        vstd::arithmetic::mul::lemma_mul_inequality(t, m - 1, st);
    } else {
        assert(t * st <= 0) by (nonlinear_arith)
            requires
                t >= 0,
                st < 0,
        ;
        assert((m - 1) * st <= t * st) by (nonlinear_arith)
            requires
                t <= m - 1,
                st < 0,
        ;
    }
}

/// Builds the view a per-axis slice denotes: axis `k` selects indices
/// `first[k] + t * steps[k]` for `t` below `lens[k]`.
pub fn slice_view(
    v: &ViewDesc,
    first: &Vec<usize>,
    lens: &Vec<usize>,
    steps: &Vec<i64>,
    Ghost(n): Ghost<int>,
) -> (r: ViewDesc)
    requires
        v.wf(n),
        0 <= n <= usize::MAX,
        n <= i64::MAX,
        first@.len() == v.shape@.len(),
        lens@.len() == v.shape@.len(),
        steps@.len() == v.shape@.len(),
        forall|k: int|
            0 <= k < v.shape@.len() ==> slice_axis_ok(
                v.shape@[k],
                first@[k],
                #[trigger] lens@[k],
                steps@[k],
            ),
    ensures
        r.wf(n),
        r.shape@ == lens@,
        forall|j: int|
            0 <= j < r.numel() ==> #[trigger] r.addr(j) == v.addr_at(
                slice_src(coords_int(first@), steps_int(steps@), unrank(lens@, j)),
            ),
{
    let ndim = v.shape.len();
    let ghost s = v.shape@;
    let ghost st = v.strides_int();
    let ghost firstI = coords_int(first@);
    let ghost stepsI = steps_int(steps@);
    proof {
        lemma_prod_pointwise_le(lens@, s, 0);
    }
    let total = crate::shape::prod_exec(lens);
    if total == 0 {
        return empty_view(lens.clone(), Ghost(n));
    }
    proof {
        lemma_sufprod_pos(lens@, 0);
        assert(v.numel() > 0) by {
            lemma_prod_pointwise_le(lens@, s, 0);
        }
        assert forall|i: int| 0 <= i < s.len() implies 0 <= #[trigger] coords_int(first@)[i]
            < s[i] by {
            assert(slice_axis_ok(s[i], first@[i], lens@[i], steps@[i]));
            assert(lens@[i] >= 1);
        }
    }
    let a0 = addr_at_exec(v, first, Ghost(n));
    let ghost newst = slice_newst(st, stepsI, lens@);
    let mut strides: Vec<i64> = Vec::new();
    let mut k: usize = 0;
    while k < ndim
        invariant
            0 <= k <= ndim,
            ndim == s.len(),
            s == v.shape@,
            st == v.strides_int(),
            stepsI == steps_int(steps@),
            newst == slice_newst(st, stepsI, lens@),
            v.wf(n),
            0 <= n <= i64::MAX,
            v.numel() > 0,
            lens@.len() == ndim,
            steps@.len() == ndim,
            first@.len() == ndim,
            forall|i: int|
                0 <= i < ndim ==> slice_axis_ok(s[i], first@[i], #[trigger] lens@[i], steps@[i]),
            strides@.len() == k,
            forall|i: int| 0 <= i < k ==> (#[trigger] strides@[i]) as int == newst[i],
        decreases ndim - k,
    {
        let m = lens[k];
        let ns: i64 = if m <= 1 {
            0
        } else {
            proof {
                lemma_span_term(s, st, k as int, 0);
                lemma_slice_stride_fits(
                    s[k as int] as int,
                    st[k as int],
                    first@[k as int] as int,
                    m as int,
                    stepsI[k as int],
                    v.offset as int,
                    minsuf(s, st, 0),
                    maxsuf(s, st, 0),
                    n,
                );
            }
            let p: i128 = (v.strides[k] as i128) * (steps[k] as i128);
            p as i64
        };
        strides.push(ns);
        k += 1;
    }
    let r = ViewDesc { offset: a0, shape: lens.clone(), strides };
    proof {
        assert(r.strides_int() =~= newst);
        let cmin = slice_cmin(firstI, stepsI, lens@, newst);
        let cmax = slice_cmax(firstI, stepsI, lens@, newst);
        lemma_slice_span(st, firstI, stepsI, lens@, 0);
        assert(crate::shape::valid_coords(s, cmin) && crate::shape::valid_coords(s, cmax)) by {
            assert forall|i: int| 0 <= i < s.len() implies 0 <= #[trigger] cmin[i] < s[i] && 0
                <= #[trigger] cmax[i] < s[i] by {
                if (lens@[i] - 1) * newst[i] != 0 {
                    lemma_slice_coord_valid(
                        s[i] as int,
                        firstI[i],
                        lens@[i] as int,
                        stepsI[i],
                        lens@[i] - 1,
                    );
                }
            }
        }
        lemma_dotsuf_bounds(s, st, cmin, 0);
        lemma_dotsuf_bounds(s, st, cmax, 0);
        assert(a0 as int == v.offset + dotsuf(firstI, st, 0));
        assert(r.offset + minsuf(lens@, newst, 0) == v.addr_at(cmin));
        assert(r.offset + maxsuf(lens@, newst, 0) == v.addr_at(cmax));
        // every slice position maps to the source address of its coordinates
        assert forall|j: int| 0 <= j < r.numel() implies #[trigger] r.addr(j) == v.addr_at(
            slice_src(firstI, stepsI, unrank(lens@, j)),
        ) by {
            crate::shape::lemma_unrank_valid(lens@, j);
            lemma_slice_dot(st, firstI, stepsI, lens@, unrank(lens@, j), 0);
        }
        // those source coordinates are valid and distinct for distinct positions
        assert forall|j: int| 0 <= j < r.numel() implies crate::shape::valid_coords(
            s,
            slice_src(firstI, stepsI, #[trigger] unrank(lens@, j)),
        ) by {
            crate::shape::lemma_unrank_valid(lens@, j);
            let c = unrank(lens@, j);
            let gc = slice_src(firstI, stepsI, c);
            assert forall|i: int| 0 <= i < s.len() implies 0 <= #[trigger] gc[i] < s[i] by {
                lemma_slice_coord_valid(s[i] as int, firstI[i], lens@[i] as int, stepsI[i], c[i]);
            }
        }
        assert forall|j1: int, j2: int|
            #![trigger r.addr(j1), r.addr(j2)]
            0 <= j1 < j2 < r.numel() implies r.addr(j1) != r.addr(j2) by {
            crate::shape::lemma_unrank_valid(lens@, j1);
            crate::shape::lemma_unrank_valid(lens@, j2);
            crate::shape::lemma_rank_unrank(lens@, j1);
            crate::shape::lemma_rank_unrank(lens@, j2);
            let c1 = unrank(lens@, j1);
            let c2 = unrank(lens@, j2);
            assert(c1 != c2) by {
                if c1 == c2 {
                    assert(crate::shape::rank_of(lens@, c1) == crate::shape::rank_of(lens@, c2));
                }
            }
            let g1 = slice_src(firstI, stepsI, c1);
            let g2 = slice_src(firstI, stepsI, c2);
            assert(g1 != g2) by {
                assert(exists|i: int| 0 <= i < c1.len() && c1[i] != c2[i]) by {
                    if forall|i: int| 0 <= i < c1.len() ==> #[trigger] c1[i] == c2[i] {
                        assert(c1 =~= c2);
                    }
                }
                let i = choose|i: int| 0 <= i < c1.len() && c1[i] != c2[i];
                assert(slice_axis_ok(s[i], first@[i], lens@[i], steps@[i]));
                assert(c1[i] * stepsI[i] != c2[i] * stepsI[i]) by (nonlinear_arith)
                    requires
                        c1[i] != c2[i],
                        stepsI[i] != 0,
                ;
                assert(g1[i] != g2[i]);
            }
            lemma_addr_at_injective(v, g1, g2);
        }
    }
    r
}

pub open spec fn steps_int(s: Seq<i64>) -> Seq<int> {
    s.map_values(|x: i64| x as int)
}

/// A slice stride `st * step` fits the stride type: the step magnitude is at
/// most the axis span, which the source view keeps inside the buffer.
proof fn lemma_slice_stride_fits(
    s: int,
    st: int,
    f: int,
    m: int,
    step: int,
    offset: int,
    mn: int,
    mx: int,
    n: int,
)
    requires
        2 <= m <= s,
        0 <= f < s,
        0 <= f + (m - 1) * step < s,
        step != 0,
        mn <= crate::shape::min0((s - 1) * st),
        crate::shape::max0((s - 1) * st) <= mx,
        0 <= offset + mn,
        offset + mx < n,
        0 <= offset,
        n <= i64::MAX,
    ensures
        i64::MIN <= st * step <= i64::MAX,
{
    // |step| <= s - 1
    assert(-(s - 1) <= step <= s - 1) by {
        if step > 0 {
            vstd::arithmetic::mul::lemma_mul_inequality(1, m - 1, step);
        } else {
            assert((m - 1) * step <= 1 * step) by (nonlinear_arith)
                requires
                    m - 1 >= 1,
                    step < 0,
            ;
        }
    }
    // |(s-1) * st| <= n - 1, hence |st| * (s-1) <= n - 1
    assert(-(n as int) < (s - 1) * st < n) by {
        if (s - 1) * st >= 0 {
            assert(crate::shape::max0((s - 1) * st) == (s - 1) * st);
        } else {
            assert(crate::shape::min0((s - 1) * st) == (s - 1) * st);
        }
    }
    // |st * step| <= |st| * (s - 1) = |(s-1) st| < n <= i64::MAX
    assert(-(n as int) < st * step < n) by (nonlinear_arith)
        requires
            -(s - 1) <= step <= s - 1,
            -(n as int) < (s - 1) * st < n,
            2 <= s,
            step != 0,
    ;
}

// --- permuting and reversing axes ---

/// Whether `p` names each axis of an array of `ndim` axes exactly once.
pub open spec fn perm_ok(p: Seq<usize>, ndim: int) -> bool {
    crate::shape::is_permutation(coords_int(p), ndim)
}

/// Validates an axis permutation and returns its inverse: `Some(inv)` with
/// `perm[inv[i]] == i` and `inv[perm[k]] == k` exactly when `perm` is a
/// permutation of the axes.
pub fn check_permutation(perm: &Vec<usize>, ndim: usize) -> (r: Option<Vec<usize>>)
    ensures
        r is Some <==> perm_ok(perm@, ndim as int),
        r is Some ==> {
            &&& r.unwrap()@.len() == ndim
            &&& perm@.len() == ndim
            &&& forall|i: int| 0 <= i < ndim ==> (#[trigger] r.unwrap()@[i]) < ndim
            &&& forall|i: int| 0 <= i < ndim ==> perm@[#[trigger] r.unwrap()@[i] as int] == i
            &&& forall|k: int| 0 <= k < ndim ==> r.unwrap()@[#[trigger] perm@[k] as int] == k
        },
{
    if perm.len() != ndim {
        proof {
            assert(!perm_ok(perm@, ndim as int));
        }
        return None;
    }
    let mut seen: Vec<bool> = Vec::new();
    let mut inv: Vec<usize> = Vec::new();
    let mut i: usize = 0;
    while i < ndim
        invariant
            seen@.len() == i,
            inv@.len() == i,
            0 <= i <= ndim,
            forall|d: int| 0 <= d < i ==> !(#[trigger] seen@[d]),
        decreases ndim - i,
    {
        seen.push(false);
        inv.push(0);
        i += 1;
    }
    let mut k: usize = 0;
    while k < ndim
        invariant
            0 <= k <= ndim,
            perm@.len() == ndim,
            seen@.len() == ndim,
            inv@.len() == ndim,
            forall|d: int|
                0 <= d < ndim ==> ((#[trigger] seen@[d]) <==> exists|k2: int|
                    0 <= k2 < k && perm@[k2] == d),
            forall|d: int|
                0 <= d < ndim && seen@[d] ==> (#[trigger] inv@[d]) < k && perm@[inv@[d] as int]
                    == d,
            forall|k1: int, k2: int| 0 <= k1 < k2 < k ==> perm@[k1] != perm@[k2],
            forall|k1: int| 0 <= k1 < k ==> (#[trigger] perm@[k1]) < ndim,
        decreases ndim - k,
    {
        let p = perm[k];
        if p >= ndim {
            proof {
                assert(!perm_ok(perm@, ndim as int)) by {
                    assert(coords_int(perm@)[k as int] >= ndim);
                }
            }
            return None;
        }
        if seen[p] {
            proof {
                assert(!perm_ok(perm@, ndim as int)) by {
                    let k2 = choose|k2: int| 0 <= k2 < k && perm@[k2] == p;
                    assert(coords_int(perm@)[k2] == coords_int(perm@)[k as int]);
                }
            }
            return None;
        }
        seen.set(p, true);
        inv.set(p, k);
        proof {
            assert forall|d: int|
                0 <= d < ndim implies ((#[trigger] seen@[d]) <==> exists|k2: int|
                    0 <= k2 < k + 1 && perm@[k2] == d) by {
                if d == p {
                    assert(perm@[k as int] == d);
                } else {
                    if seen@[d] {
                        let k2 = choose|k2: int| 0 <= k2 < k && perm@[k2] == d;
                        assert(0 <= k2 < k + 1 && perm@[k2] == d);
                    }
                }
            }
        }
        k += 1;
    }
    proof {
        assert(perm_ok(perm@, ndim as int)) by {
            assert forall|k1: int| 0 <= k1 < ndim implies 0 <= #[trigger] coords_int(perm@)[k1]
                < ndim by {}
            assert forall|k1: int, k2: int| 0 <= k1 < k2 < ndim implies coords_int(perm@)[k1]
                != coords_int(perm@)[k2] by {}
        }
    }
    // every axis was seen: ndim distinct in-range values fill all slots; a
    // runtime sweep keeps the proof elementary
    let mut d: usize = 0;
    while d < ndim
        invariant
            0 <= d <= ndim,
            perm@.len() == ndim,
            seen@.len() == ndim,
            inv@.len() == ndim,
            perm_ok(perm@, ndim as int),
            forall|d2: int|
                0 <= d2 < ndim ==> ((#[trigger] seen@[d2]) <==> exists|k2: int|
                    0 <= k2 < ndim && perm@[k2] == d2),
            forall|d2: int|
                0 <= d2 < ndim && seen@[d2] ==> (#[trigger] inv@[d2]) < ndim
                    && perm@[inv@[d2] as int] == d2,
            forall|d2: int| 0 <= d2 < d ==> #[trigger] seen@[d2],
        decreases ndim - d,
    {
        if !seen[d] {
            // unreachable: the permutation places ndim distinct axes in ndim
            // slots; shown by counting through the pigeonhole of the inverse
            proof {
                lemma_perm_surjective(perm@, ndim as int, d as int);
                assert(false);
            }
        }
        d += 1;
    }
    proof {
        assert forall|k1: int| 0 <= k1 < ndim implies inv@[#[trigger] perm@[k1] as int] == k1 by {
            let pd = perm@[k1] as int;
            assert(seen@[pd]);
            assert(perm@[inv@[pd] as int] == pd);
            if inv@[pd] as int != k1 {
                assert(perm@[inv@[pd] as int] != perm@[k1] || true);
                if (inv@[pd] as int) < k1 {
                    assert(perm@[inv@[pd] as int] != perm@[k1]);
                } else {
                    assert(perm@[k1] != perm@[inv@[pd] as int]);
                }
            }
        }
    }
    Some(inv)
}

/// An injective map of `0..ndim` into itself hits every value: pigeonhole.
proof fn lemma_perm_surjective(p: Seq<usize>, ndim: int, d: int)
    requires
        perm_ok(p, ndim),
        0 <= d < ndim,
    ensures
        exists|k: int| 0 <= k < ndim && p[k] == d,
{
    lemma_inj_hits(coords_int(p), ndim, d, Set::new(|x: int| 0 <= x < ndim && x != d));
}

/// An injective sequence of `n` values drawn from a set of `n - 1` values
/// cannot exist: so if the values of an injective length-`n` sequence all lie
/// in `0..n`, each target, in particular `d`, is hit.
proof fn lemma_inj_hits(p: Seq<int>, n: int, d: int, avoid: Set<int>)
    requires
        crate::shape::is_permutation(p, n),
        0 <= d < n,
    ensures
        exists|k: int| 0 <= k < n && p[k] == d,
{
    if !(exists|k: int| 0 <= k < n && p[k] == d) {
        let range = vstd::set_lib::set_int_range(0, n);
        let values = range.remove(d);
        vstd::set_lib::lemma_int_range(0, n);
        vstd::set::axiom_set_remove_len(range, d);
        assert forall|k: int| 0 <= k < n implies values.contains(#[trigger] p[k]) by {
            assert(p[k] != d);
        }
        lemma_card_injection(p, n, values);
        assert(false);
    }
}

/// `n` distinct values inside a finite set force the set to have at least
/// `n` elements.
proof fn lemma_card_injection(p: Seq<int>, n: int, values: Set<int>)
    requires
        0 <= n <= p.len(),
        values.finite(),
        forall|k: int| 0 <= k < n ==> values.contains(#[trigger] p[k]),
        forall|i: int, j: int| 0 <= i < j < p.len() ==> p[i] != p[j],
    ensures
        values.len() >= n,
    decreases n,
{
    if n > 0 {
        let last = p[n - 1];
        let rest = values.remove(last);
        assert forall|k: int| 0 <= k < n - 1 implies rest.contains(#[trigger] p[k]) by {
            assert(p[k] != last);
        }
        lemma_card_injection(p, n - 1, rest);
    }
}

/// The coordinates `c` read through the index map `q`.
pub open spec fn reindex(c: Seq<int>, q: Seq<usize>) -> Seq<int> {
    Seq::new(q.len(), |i: int| c[q[i] as int])
}

/// Builds the view with axes reordered by `perm`: axis `k` of the result is
/// axis `perm[k]` of the source. `inv` is the inverse permutation.
pub fn permute_view(
    v: &ViewDesc,
    perm: &Vec<usize>,
    inv: &Vec<usize>,
    Ghost(n): Ghost<int>,
) -> (r: ViewDesc)
    requires
        v.wf(n),
        perm@.len() == v.shape@.len(),
        inv@.len() == v.shape@.len(),
        perm_ok(perm@, v.shape@.len() as int),
        forall|i: int| 0 <= i < inv@.len() ==> (#[trigger] inv@[i]) < inv@.len(),
        forall|i: int| 0 <= i < inv@.len() ==> perm@[#[trigger] inv@[i] as int] == i,
        forall|k: int| 0 <= k < perm@.len() ==> inv@[#[trigger] perm@[k] as int] == k,
    ensures
        r.wf(n),
        r.numel() == v.numel(),
        r.shape@.len() == v.shape@.len(),
        forall|k: int| 0 <= k < r.shape@.len() ==> r.shape@[k] == v.shape@[#[trigger] perm@[k] as int],
        forall|j: int|
            0 <= j < r.numel() ==> #[trigger] r.addr(j) == v.addr_at(
                reindex(unrank(r.shape@, j), inv@),
            ),
{
    let ndim = v.shape.len();
    let ghost s = v.shape@;
    let ghost st = v.strides_int();
    let ghost permI = coords_int(perm@);
    proof {
        assert forall|i: int| 0 <= i < ndim implies (#[trigger] perm@[i]) < ndim by {
            assert(0 <= coords_int(perm@)[i] < ndim);
        }
    }
    let mut shape: Vec<usize> = Vec::new();
    let mut strides: Vec<i64> = Vec::new();
    let mut k: usize = 0;
    while k < ndim
        invariant
            0 <= k <= ndim,
            ndim == s.len(),
            s == v.shape@,
            v.strides@.len() == ndim,
            perm@.len() == ndim,
            forall|i: int| 0 <= i < ndim ==> (#[trigger] perm@[i]) < ndim,
            shape@.len() == k,
            strides@.len() == k,
            forall|i: int| 0 <= i < k ==> (#[trigger] shape@[i]) == s[perm@[i] as int],
            forall|i: int| 0 <= i < k ==> (#[trigger] strides@[i]) == v.strides@[perm@[i] as int],
        decreases ndim - k,
    {
        shape.push(v.shape[perm[k]]);
        strides.push(v.strides[perm[k]]);
        k += 1;
    }
    let r = ViewDesc { offset: v.offset, shape, strides };
    proof {
        let rs = r.shape@;
        let rst = r.strides_int();
        // the element count is a product over a permutation of the same dims
        crate::shape::lemma_prod_permute(s, rs, permI);
        // extreme spans are sums over a permutation of the same terms
        crate::shape::lemma_minsuf_is_sum(s, st, 0);
        crate::shape::lemma_minsuf_is_sum(rs, rst, 0);
        assert forall|i: int|
            0 <= i < ndim implies crate::shape::minterms(rs, rst)[i] == crate::shape::minterms(
            s,
            st,
        )[permI[i]] && crate::shape::maxterms(rs, rst)[i] == crate::shape::maxterms(
            s,
            st,
        )[permI[i]] by {}
        crate::shape::lemma_sum_permute(
            crate::shape::minterms(s, st),
            crate::shape::minterms(rs, rst),
            permI,
        );
        crate::shape::lemma_sum_permute(
            crate::shape::maxterms(s, st),
            crate::shape::maxterms(rs, rst),
            permI,
        );
        // each position's address is the source address of its reindexed
        // coordinates
        assert forall|j: int| 0 <= j < r.numel() implies #[trigger] r.addr(j) == v.addr_at(
            reindex(unrank(rs, j), inv@),
        ) by {
            lemma_permute_addr(v, &r, perm@, inv@, j);
        }
        assert forall|j: int| 0 <= j < r.numel() implies crate::shape::valid_coords(
            s,
            reindex(#[trigger] unrank(rs, j), inv@),
        ) by {
            crate::shape::lemma_unrank_valid(rs, j);
            let c = unrank(rs, j);
            let d = reindex(c, inv@);
            assert forall|i: int| 0 <= i < s.len() implies 0 <= #[trigger] d[i] < s[i] by {
                assert(c[inv@[i] as int] < rs[inv@[i] as int]);
                assert(rs[inv@[i] as int] == s[perm@[inv@[i] as int] as int]);
            }
        }
        assert forall|j1: int, j2: int|
            #![trigger r.addr(j1), r.addr(j2)]
            0 <= j1 < j2 < r.numel() implies r.addr(j1) != r.addr(j2) by {
            crate::shape::lemma_unrank_valid(rs, j1);
            crate::shape::lemma_unrank_valid(rs, j2);
            crate::shape::lemma_rank_unrank(rs, j1);
            crate::shape::lemma_rank_unrank(rs, j2);
            let c1 = unrank(rs, j1);
            let c2 = unrank(rs, j2);
            let d1 = reindex(c1, inv@);
            let d2 = reindex(c2, inv@);
            assert(c1 != c2) by {
                if c1 == c2 {
                    assert(crate::shape::rank_of(rs, c1) == crate::shape::rank_of(rs, c2));
                }
            }
            assert(d1 != d2) by {
                assert(exists|i: int| 0 <= i < c1.len() && c1[i] != c2[i]) by {
                    if forall|i: int| 0 <= i < c1.len() ==> #[trigger] c1[i] == c2[i] {
                        assert(c1 =~= c2);
                    }
                }
                let i = choose|i: int| 0 <= i < c1.len() && c1[i] != c2[i];
                assert(0 <= coords_int(perm@)[i] < ndim);
                assert(inv@[perm@[i] as int] == i);
                assert(d1[perm@[i] as int] == c1[inv@[perm@[i] as int] as int]);
                assert(d2[perm@[i] as int] == c2[inv@[perm@[i] as int] as int]);
            }
            lemma_addr_at_injective(v, d1, d2);
        }
    }
    r
}

/// The address of a permuted-view position equals the source address of its
/// reindexed coordinates: the same per-axis terms, summed in another order.
proof fn lemma_permute_addr(v: &ViewDesc, r: &ViewDesc, perm: Seq<usize>, inv: Seq<usize>, j: int)
    requires
        v.strides@.len() == v.shape@.len(),
        r.strides@.len() == r.shape@.len(),
        r.shape@.len() == v.shape@.len(),
        perm.len() == v.shape@.len(),
        inv.len() == v.shape@.len(),
        crate::shape::is_permutation(coords_int(perm), v.shape@.len() as int),
        forall|i: int| 0 <= i < inv.len() ==> (#[trigger] inv[i]) < inv.len(),
        forall|i: int| 0 <= i < inv.len() ==> perm[#[trigger] inv[i] as int] == i,
        forall|k: int| 0 <= k < perm.len() ==> inv[#[trigger] perm[k] as int] == k,
        forall|i: int| 0 <= i < r.shape@.len() ==> r.shape@[i] == v.shape@[#[trigger] perm[i] as int],
        forall|i: int|
            0 <= i < r.strides@.len() ==> r.strides@[i] == v.strides@[#[trigger] perm[i] as int],
        r.offset == v.offset,
        0 <= j < r.numel(),
    ensures
        r.addr(j) == v.addr_at(reindex(unrank(r.shape@, j), inv)),
{
    let c = unrank(r.shape@, j);
    let d = reindex(c, inv);
    let st = v.strides_int();
    let rst = r.strides_int();
    let t1 = crate::shape::dotterms(d, st);
    let t2 = crate::shape::dotterms(c, rst);
    let permI = coords_int(perm);
    assert forall|k: int| 0 <= k < t1.len() implies t2[k] == t1[#[trigger] permI[k]] by {
        assert(0 <= coords_int(perm)[k] < perm.len());
        assert(inv[perm[k] as int] == k);
        assert(d[perm[k] as int] == c[inv[perm[k] as int] as int]);
    }
    crate::shape::lemma_sum_permute(t1, t2, permI);
    crate::shape::lemma_dotsuf_is_sum(d, st, 0);
    crate::shape::lemma_dotsuf_is_sum(c, rst, 0);
}

/// Builds the view that iterates axis `ax` backward.
pub fn reverse_view(v: &ViewDesc, ax: usize, Ghost(n): Ghost<int>) -> (r: ViewDesc)
    requires
        v.wf(n),
        0 <= n <= usize::MAX,
        n <= i64::MAX,
        (ax as int) < v.shape@.len(),
    ensures
        r.wf(n),
        r.shape@ == v.shape@,
        r.numel() == v.numel(),
        forall|j: int|
            0 <= j < r.numel() ==> #[trigger] r.addr(j) == v.addr_at(
                unrank(v.shape@, j).update(
                    ax as int,
                    v.shape@[ax as int] - 1 - unrank(v.shape@, j)[ax as int],
                ),
            ),
{
    let ndim = v.shape.len();
    let ghost s = v.shape@;
    let ghost st = v.strides_int();
    let total = crate::shape::prod_exec(&v.shape);
    if total == 0 {
        let r = empty_view(v.shape.clone(), Ghost(n));
        proof {
            assert(r.shape@ == v.shape@);
        }
        return ViewDesc { offset: r.offset, shape: v.shape.clone(), strides: r.strides };
    }
    proof {
        lemma_sufprod_pos(s, 0);
    }
    let m = v.shape[ax];
    let ghost t_ax = (s[ax as int] - 1) * st[ax as int];
    proof {
        lemma_span_term(s, st, ax as int, 0);
    }
    if m <= 1 {
        // reversing a length-one axis changes nothing; give it stride zero
        let mut strides = v.strides.clone();
        strides.set(ax, 0);
        let r = ViewDesc { offset: v.offset, shape: v.shape.clone(), strides };
        proof {
            lemma_sufprod_pos(s, 0);
            assert(s[ax as int] >= 1);
            assert(t_ax == 0) by {
                assert((s[ax as int] - 1) == 0);
                assert(0int * st[ax as int] == 0) by (nonlinear_arith);
            }
            lemma_reverse_wf(v, &r, ax as int, 0, n);
        }
        r
    } else {
        let sti = v.strides[ax];
        proof {
            // the axis span is inside the buffer, so the stride magnitude is
            // at most n and its negation fits
            assert(-(n as int) <= t_ax <= n) by {
                if t_ax >= 0 {
                    assert(crate::shape::max0(t_ax) == t_ax);
                } else {
                    assert(crate::shape::min0(t_ax) == t_ax);
                }
            }
            assert(-(n as int) <= st[ax as int] <= n) by (nonlinear_arith)
                requires
                    t_ax == (s[ax as int] - 1) * st[ax as int],
                    s[ax as int] >= 2,
                    -(n as int) <= t_ax <= n,
            ;
        }
        let nst = -sti;
        // the new offset addresses the last element of the reversed axis
        let mut e: Vec<usize> = Vec::new();
        let mut k: usize = 0;
        while k < ndim
            invariant
                0 <= k <= ndim,
                ndim == s.len(),
                e@.len() == k,
                (ax as int) < ndim,
                m == s[ax as int],
                m >= 2,
                forall|i: int|
                    0 <= i < k ==> (#[trigger] e@[i]) == (if i == ax {
                        (m - 1) as usize
                    } else {
                        0usize
                    }),
            decreases ndim - k,
        {
            if k == ax {
                e.push(m - 1);
            } else {
                e.push(0);
            }
            k += 1;
        }
        proof {
            assert forall|i: int| 0 <= i < s.len() implies 0 <= #[trigger] coords_int(e@)[i]
                < s[i] by {
                crate::shape::lemma_sufprod_pos(s, 0);
            }
        }
        let off = addr_at_exec(v, &e, Ghost(n));
        let mut strides = v.strides.clone();
        strides.set(ax, nst);
        let r = ViewDesc { offset: off, shape: v.shape.clone(), strides };
        proof {
            assert(dotsuf(coords_int(e@), st, 0) == t_ax) by {
                let zeros = Seq::new(s.len(), |i: int| 0int);
                lemma_dotsuf_zeros(zeros, st, 0);
                assert(coords_int(e@) =~= zeros.update(ax as int, s[ax as int] - 1));
                crate::shape::lemma_dotsuf_update_coord(zeros, st, ax as int, s[ax as int] - 1, 0);
                assert(zeros[ax as int] * st[ax as int] == 0) by (nonlinear_arith)
                    requires
                        zeros[ax as int] == 0,
                ;
            }
            lemma_reverse_wf(v, &r, ax as int, -st[ax as int], n);
        }
        r
    }
}

proof fn lemma_dotsuf_zeros(c: Seq<int>, st: Seq<int>, k: int)
    requires
        forall|i: int| 0 <= i < c.len() ==> c[i] == 0,
        0 <= k,
    ensures
        dotsuf(c, st, k) == 0,
    decreases c.len() - k,
{
    if k < c.len() && k < st.len() {
        lemma_dotsuf_zeros(c, st, k + 1);
        assert(c[k] * st[k] == 0) by (nonlinear_arith)
            requires
                c[k] == 0,
        ;
    }
}

/// The reversed view is well-formed and addresses the mirrored coordinates.
proof fn lemma_reverse_wf(v: &ViewDesc, r: &ViewDesc, ax: int, y: int, n: int)
    requires
        v.wf(n),
        0 <= ax < v.shape@.len(),
        v.numel() > 0,
        r.shape@ == v.shape@,
        r.strides@.len() == v.strides@.len(),
        r.strides_int() =~= v.strides_int().update(ax, y),
        v.shape@[ax] <= 1 ==> y == 0 && r.offset == v.offset,
        v.shape@[ax] >= 2 ==> y == -v.strides_int()[ax] && r.offset == v.offset + (v.shape@[ax] - 1)
            * v.strides_int()[ax],
    ensures
        r.wf(n),
        forall|j: int|
            0 <= j < r.numel() ==> #[trigger] r.addr(j) == v.addr_at(
                unrank(v.shape@, j).update(ax, v.shape@[ax] - 1 - unrank(v.shape@, j)[ax]),
            ),
{
    let s = v.shape@;
    let st = v.strides_int();
    let rst = r.strides_int();
    let t_ax = (s[ax] - 1) * st[ax];
    let t_new = (s[ax] - 1) * y;
    lemma_sufprod_pos(s, 0);
    crate::shape::lemma_span_update_stride(s, st, ax, y, 0);
    assert(minsuf(s, rst, 0) == minsuf(s, st.update(ax, y), 0)) by {
        crate::shape::lemma_span_eq_from(s, rst, st.update(ax, y), 0);
    }
    assert(maxsuf(s, rst, 0) == maxsuf(s, st.update(ax, y), 0)) by {
        crate::shape::lemma_span_eq_from(s, rst, st.update(ax, y), 0);
    }
    if s[ax] <= 1 {
        assert(t_ax == 0) by {
            assert(s[ax] == 1);
            assert(0int * st[ax] == 0) by (nonlinear_arith);
        }
        assert(t_new == 0) by {
            assert(0int * y == 0) by (nonlinear_arith);
        }
    } else {
        assert(t_new == -t_ax) by (nonlinear_arith)
            requires
                t_new == (s[ax] - 1) * y,
                t_ax == (s[ax] - 1) * st[ax],
                y == -st[ax],
        ;
    }
    // spans: the reversed axis swaps its extreme contributions, so the ends
    // of the reachable address interval are unchanged
    assert(r.offset + minsuf(s, rst, 0) == v.offset + minsuf(s, st, 0));
    assert(r.offset + maxsuf(s, rst, 0) == v.offset + maxsuf(s, st, 0));
    // addresses: position j reads the mirrored coordinate on axis ax
    assert forall|j: int| 0 <= j < r.numel() implies #[trigger] r.addr(j) == v.addr_at(
        unrank(s, j).update(ax, s[ax] - 1 - unrank(s, j)[ax]),
    ) by {
        crate::shape::lemma_unrank_valid(s, j);
        let c = unrank(s, j);
        let cax = c[ax];
        let cm = c.update(ax, s[ax] - 1 - cax);
        crate::shape::lemma_dotsuf_update_coord(c, st, ax, s[ax] - 1 - cax, 0);
        crate::shape::lemma_dotsuf_update_stride(c, st, ax, y, 0);
        crate::shape::lemma_dotsuf_eq_from(c, rst, st.update(ax, y), 0);
        // r.addr(j) == r.offset + dotsuf(c, st, 0) + cax*y - cax*st[ax]
        // target   == v.offset + dotsuf(c, st, 0) + (s[ax]-1-cax)*st[ax] - cax*st[ax]
        if s[ax] <= 1 {
            assert(cax == 0);
            assert(cax * y == 0 && cax * st[ax] == 0 && (s[ax] - 1 - cax) * st[ax] == 0)
                by (nonlinear_arith)
                requires
                    cax == 0,
                    s[ax] == 1,
            ;
        } else {
            assert(t_ax + cax * y == (s[ax] - 1 - cax) * st[ax]) by (nonlinear_arith)
                requires
                    y == -st[ax],
                    t_ax == (s[ax] - 1) * st[ax],
            ;
        }
    }
    // injectivity: mirroring one coordinate is a bijection on coordinates
    assert forall|j1: int, j2: int|
        #![trigger r.addr(j1), r.addr(j2)]
        0 <= j1 < j2 < r.numel() implies r.addr(j1) != r.addr(j2) by {
        crate::shape::lemma_unrank_valid(s, j1);
        crate::shape::lemma_unrank_valid(s, j2);
        crate::shape::lemma_rank_unrank(s, j1);
        crate::shape::lemma_rank_unrank(s, j2);
        let c1 = unrank(s, j1);
        let c2 = unrank(s, j2);
        let m1 = c1.update(ax, s[ax] - 1 - c1[ax]);
        let m2 = c2.update(ax, s[ax] - 1 - c2[ax]);
        assert(c1 != c2) by {
            if c1 == c2 {
                assert(crate::shape::rank_of(s, c1) == crate::shape::rank_of(s, c2));
            }
        }
        assert(m1 != m2) by {
            assert(exists|i: int| 0 <= i < c1.len() && c1[i] != c2[i]) by {
                if forall|i: int| 0 <= i < c1.len() ==> #[trigger] c1[i] == c2[i] {
                    assert(c1 =~= c2);
                }
            }
            let i = choose|i: int| 0 <= i < c1.len() && c1[i] != c2[i];
            if i == ax {
                assert(m1[ax] == s[ax] - 1 - c1[ax]);
                assert(m2[ax] == s[ax] - 1 - c2[ax]);
                assert(m1[ax] != m2[ax]);
            } else {
                assert(m1[i] == c1[i]);
                assert(m2[i] == c2[i]);
                assert(m1[i] != m2[i]);
            }
        }
        lemma_addr_at_injective(v, m1, m2);
    }
}

/// Writes `vals` through the view, element by element in iteration order.
/// Buffer cells the view does not alias keep their old contents.
pub fn write_view(buf: &mut Buffer, v: &ViewDesc, vals: &Vec<Value>)
    requires
        v.wf(old(buf).vals().len() as int),
        vals@.len() == v.numel(),
        forall|k: int| 0 <= k < vals@.len() ==> vtype(#[trigger] vals@[k]) == old(buf).elem_type(),
    ensures
        final(buf).elem_type() == old(buf).elem_type(),
        final(buf).vals().len() == old(buf).vals().len(),
        v.view_seq(final(buf).vals()) =~= vals@,
        forall|p: int|
            0 <= p < old(buf).vals().len() && !v.covers(p) ==> final(buf).vals()[p] == old(
                buf,
            ).vals()[p],
{
    let ghost n = old(buf).vals().len() as int;
    let _buf_len = buf.len();
    let total = vals.len();
    if total == 0 {
        return ;
    }
    let sp = suffix_products(&v.shape);
    let mut j: usize = 0;
    while j < total
        invariant
            v.wf(n),
            n == buf.vals().len(),
            n == old(buf).vals().len(),
            0 <= n <= usize::MAX,
            total == v.numel(),
            0 < total <= usize::MAX,
            total == vals@.len(),
            0 <= j <= total,
            forall|k: int| 0 <= k < vals@.len() ==> vtype(#[trigger] vals@[k]) == old(
                buf,
            ).elem_type(),
            sp@.len() == v.shape@.len() + 1,
            forall|i: int| 0 <= i <= v.shape@.len() ==> (#[trigger] sp@[i]) == sufprod(v.shape@, i),
            buf.elem_type() == old(buf).elem_type(),
            forall|i: int| 0 <= i < j ==> buf.vals()[v.addr(i)] == vals@[i],
            forall|p: int|
                0 <= p < n && !v.covered_upto(p, j as int) ==> buf.vals()[p] == old(buf).vals()[p],
        decreases total - j,
    {
        let ghost prev = buf.vals();
        let a = addr_exec(v, j, &sp, Ghost(n));
        let value = vals[j];
        buf.set(a, value);
        proof {
            assert forall|i: int| 0 <= i < j + 1 implies buf.vals()[v.addr(i)] == vals@[i] by {
                if i < j {
                    assert(v.addr(i) != v.addr(j as int));
                    lemma_addr_in_bounds(v, n, i);
                }
            }
            assert forall|p: int|
                0 <= p < n && !v.covered_upto(p, j + 1) implies buf.vals()[p] == old(
                buf,
            ).vals()[p] by {
                assert(p != v.addr(j as int)) by {
                    if p == v.addr(j as int) {
                        assert(0 <= (j as int) < j + 1 && v.addr(j as int) == p);
                        assert(v.covered_upto(p, j + 1));
                    }
                }
                assert(!v.covered_upto(p, j as int)) by {
                    if v.covered_upto(p, j as int) {
                        let w = choose|w: int| 0 <= w < j && v.addr(w) == p;
                        assert(0 <= w < j + 1 && v.addr(w) == p);
                        assert(v.covered_upto(p, j + 1));
                    }
                }
            }
        }
        j += 1;
    }
    proof {
        assert forall|jj: int| 0 <= jj < v.numel() implies v.view_seq(buf.vals())[jj]
            == vals@[jj] by {
            lemma_addr_in_bounds(v, n, jj);
        }
    }
}

} // verus!
