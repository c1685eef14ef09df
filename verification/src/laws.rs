use vstd::prelude::*;
use crate::algorithms::{
    argsort_spec, axis_semantics, cumsum_spec, diff_spec, insert_idx, insert_sorted,
    lane_fold_sum, lane_seq, lane_typed, sort_spec, AxisOp,
};
use crate::value::{
    as_bool, as_float_bits, binop_spec, lemma_value_order_total, lemma_value_order_trans, promote,
    value_is_nan, value_le, value_lt, vtype, BinOp, Value,
};
use crate::NDArrayType;

verus! {

// The general properties of the engine that hold of every input, stated and
// proved once over the specification functions the executable contracts use.

/// The promotion table, in one place: the result type of an arithmetic
/// operator is Float if either operand is Float, else Int if either is Int;
/// two booleans combine logically, with `+` and `-` as XOR and `*` as AND;
/// and Float operands always go through the IEEE operations on the widened
/// bit patterns.
pub proof fn lemma_promotion_table(op: BinOp, a: Value, b: Value)
    requires
        op == BinOp::Sum || op == BinOp::Sub || op == BinOp::Mul,
    ensures
        vtype(binop_spec(op, a, b)) == promote(vtype(a), vtype(b)),
        vtype(a) == NDArrayType::Bool && vtype(b) == NDArrayType::Bool ==> {
            &&& (op == BinOp::Sum ==> binop_spec(op, a, b) == Value::Bool(as_bool(a) != as_bool(b)))
            &&& (op == BinOp::Sub ==> binop_spec(op, a, b) == Value::Bool(as_bool(a) != as_bool(b)))
            &&& (op == BinOp::Mul ==> binop_spec(op, a, b) == Value::Bool(as_bool(a) && as_bool(b)))
        },
        promote(vtype(a), vtype(b)) == NDArrayType::Float ==> {
            &&& (op == BinOp::Sum ==> binop_spec(op, a, b) == Value::Float(
                crate::floatbits::fadd_bits(as_float_bits(a), as_float_bits(b)),
            ))
            &&& (op == BinOp::Sub ==> binop_spec(op, a, b) == Value::Float(
                crate::floatbits::fsub_bits(as_float_bits(a), as_float_bits(b)),
            ))
            &&& (op == BinOp::Mul ==> binop_spec(op, a, b) == Value::Float(
                crate::floatbits::fmul_bits(as_float_bits(a), as_float_bits(b)),
            ))
        },
        promote(vtype(a), vtype(b)) == NDArrayType::Int ==> vtype(binop_spec(op, a, b))
            == NDArrayType::Int,
{
}

/// Reading a lane through its stable argsort permutation reproduces its
/// stable sort: sorting and argsort-then-gather are the same operation.
pub proof fn lemma_argsort_gather_is_sort(keys: Seq<Value>)
    ensures
        Seq::new(keys.len(), |t: int| keys[argsort_spec(keys, keys.len() as int)[t]]) =~= sort_spec(
            keys,
        ),
{
    lemma_argsort_gather_upto(keys, keys.len() as int);
    let n = keys.len() as int;
    lemma_argsort_len(keys, n);
    assert(keys.take(n) =~= keys);
    assert(Seq::new(keys.len(), |t: int| keys[argsort_spec(keys, n)[t]]) =~= gather(
        keys,
        argsort_spec(keys, n),
    ));
}

/// The elements of `keys` read through the index list `idxs`.
pub open spec fn gather(keys: Seq<Value>, idxs: Seq<int>) -> Seq<Value> {
    Seq::new(idxs.len(), |t: int| keys[idxs[t]])
}

proof fn lemma_argsort_len(keys: Seq<Value>, n: int)
    requires
        0 <= n <= keys.len(),
    ensures
        argsort_spec(keys, n).len() == n,
    decreases n,
{
    if n > 0 {
        lemma_argsort_len(keys, n - 1);
        lemma_insert_idx_len(argsort_spec(keys, n - 1), keys, n - 1);
    }
}

proof fn lemma_insert_idx_len(r: Seq<int>, keys: Seq<Value>, i: int)
    ensures
        insert_idx(r, keys, i).len() == r.len() + 1,
    decreases r.len(),
{
    if r.len() > 0 && value_lt(keys[i], keys[r.last()]) {
        lemma_insert_idx_len(r.drop_last(), keys, i);
    }
}

/// Gathering after one insertion step equals inserting the gathered value.
proof fn lemma_gather_insert(keys: Seq<Value>, r: Seq<int>, i: int)
    ensures
        gather(keys, insert_idx(r, keys, i)) =~= insert_sorted(gather(keys, r), keys[i]),
    decreases r.len(),
{
    lemma_insert_idx_len(r, keys, i);
    if r.len() == 0 {
    } else {
        assert(gather(keys, r).last() == keys[r.last()]);
        if !value_lt(keys[i], keys[r.last()]) {
            assert(gather(keys, r.push(i)) =~= gather(keys, r).push(keys[i]));
        } else {
            lemma_gather_insert(keys, r.drop_last(), i);
            assert(gather(keys, r).drop_last() =~= gather(keys, r.drop_last()));
            assert(gather(keys, insert_idx(r.drop_last(), keys, i).push(r.last())) =~= gather(
                keys,
                insert_idx(r.drop_last(), keys, i),
            ).push(keys[r.last()]));
        }
    }
}

proof fn lemma_argsort_gather_upto(keys: Seq<Value>, n: int)
    requires
        0 <= n <= keys.len(),
    ensures
        gather(keys, argsort_spec(keys, n)) =~= sort_spec(keys.take(n)),
    decreases n,
{
    if n == 0 {
        assert(keys.take(0) =~= Seq::<Value>::empty());
    } else {
        lemma_argsort_gather_upto(keys, n - 1);
        lemma_gather_insert(keys, argsort_spec(keys, n - 1), n - 1);
        assert(keys.take(n).drop_last() =~= keys.take(n - 1));
        assert(keys.take(n).last() == keys[n - 1]);
        assert(sort_spec(keys.take(n)) == insert_sorted(sort_spec(keys.take(n - 1)), keys[n - 1]));
    }
}

/// Differencing a running sum recovers the original lane but for its first
/// element: over machine integers the wraparound of the sums cancels
/// exactly, so this holds for every Int lane, overflow included.
pub proof fn lemma_diff_of_cumsum(s: Seq<Value>)
    requires
        lane_typed(s, NDArrayType::Int),
    ensures
        diff_spec(cumsum_spec(s, NDArrayType::Int)).len() == s.len() - 1 || s.len() == 0,
        forall|t: int|
            0 <= t < s.len() - 1 ==> #[trigger] diff_spec(cumsum_spec(s, NDArrayType::Int))[t]
                == s[t + 1],
{
    let c = cumsum_spec(s, NDArrayType::Int);
    assert forall|t: int|
        0 <= t < s.len() - 1 implies #[trigger] diff_spec(c)[t] == s[t + 1] by {
        assert(s.take(t + 2).drop_last() =~= s.take(t + 1));
        assert(s.take(t + 2).last() == s[t + 1]);
        assert(lane_typed(s.take(t + 1), NDArrayType::Int));
        crate::algorithms::lemma_sum_type(s.take(t + 1), NDArrayType::Int);
        let prev = lane_fold_sum(s.take(t + 1), NDArrayType::Int);
        assert(c[t + 1] == binop_spec(BinOp::Sum, prev, s[t + 1]));
        assert(c[t] == prev);
        lemma_wrap_cancel(prev, s[t + 1]);
    }
}

/// Wrapping subtraction undoes wrapping addition on machine integers.
proof fn lemma_wrap_cancel(a: Value, b: Value)
    requires
        vtype(a) == NDArrayType::Int,
        vtype(b) == NDArrayType::Int,
    ensures
        binop_spec(BinOp::Sub, binop_spec(BinOp::Sum, a, b), a) == b,
{
    let x = crate::value::as_int(a);
    let y = crate::value::as_int(b);
    assert(binop_spec(BinOp::Sum, a, b) == Value::Int(x.wrapping_add(y)));
    assert(x.wrapping_add(y).wrapping_sub(x) == y);
}


/// Pairwise order of a lane.
pub open spec fn lane_sorted(s: Seq<Value>) -> bool {
    forall|p: int, q: int| 0 <= p < q < s.len() ==> value_le(#[trigger] s[p], #[trigger] s[q])
}

pub open spec fn lane_all_no_nan(s: Seq<Value>) -> bool {
    forall|p: int| 0 <= p < s.len() ==> !value_is_nan(#[trigger] s[p])
}

/// The stable sort really sorts: on any same-typed lane without NaN, its
/// result is ordered by the key order and holds exactly the lane's elements.
pub proof fn lemma_sort_spec_orders(s: Seq<Value>, t: NDArrayType)
    requires
        lane_typed(s, t),
        lane_all_no_nan(s),
    ensures
        sort_spec(s).len() == s.len(),
        sort_spec(s).to_multiset() == s.to_multiset(),
        lane_sorted(sort_spec(s)),
    decreases s.len(),
{
    if s.len() == 0 {
        assert(sort_spec(s) =~= Seq::<Value>::empty());
        assert(s =~= Seq::<Value>::empty());
        s.to_multiset_ensures();
    } else {
        let dl = s.drop_last();
        assert(lane_typed(dl, t));
        assert(lane_all_no_nan(dl));
        lemma_sort_spec_orders(dl, t);
        lemma_sort_origin(dl, t);
        lemma_insert_orders(sort_spec(dl), s.last(), t);
        s.to_multiset_ensures();
        dl.to_multiset_ensures();
        sort_spec(dl).to_multiset_ensures();
        assert(dl.push(s.last()) =~= s);
        assert(s.to_multiset() == dl.to_multiset().insert(s.last()));
    }
}

/// Every element of the sorted lane is an element of the lane.
proof fn lemma_sort_origin(s: Seq<Value>, t: NDArrayType)
    requires
        lane_typed(s, t),
        lane_all_no_nan(s),
    ensures
        lane_typed(sort_spec(s), t),
        lane_all_no_nan(sort_spec(s)),
    decreases s.len(),
{
    if s.len() > 0 {
        let dl = s.drop_last();
        assert(lane_typed(dl, t));
        assert(lane_all_no_nan(dl));
        lemma_sort_origin(dl, t);
        lemma_insert_origin(sort_spec(dl), s.last(), t);
    }
}

proof fn lemma_insert_origin(s: Seq<Value>, x: Value, t: NDArrayType)
    requires
        lane_typed(s, t),
        lane_all_no_nan(s),
        vtype(x) == t,
        !value_is_nan(x),
    ensures
        lane_typed(insert_sorted(s, x), t),
        lane_all_no_nan(insert_sorted(s, x)),
        insert_sorted(s, x).len() == s.len() + 1,
        forall|p: int|
            0 <= p < insert_sorted(s, x).len() ==> #[trigger] insert_sorted(s, x)[p] == x
                || s.contains(insert_sorted(s, x)[p]),
    decreases s.len(),
{
    let r = insert_sorted(s, x);
    if s.len() == 0 {
    } else if !value_lt(x, s.last()) {
        assert forall|p: int| 0 <= p < r.len() implies #[trigger] r[p] == x || s.contains(r[p]) by {
            if p < s.len() {
                assert(s[p] == r[p]);
            }
        }
    } else {
        let dl = s.drop_last();
        assert(lane_typed(dl, t));
        assert(lane_all_no_nan(dl));
        lemma_insert_origin(dl, x, t);
        let ri = insert_sorted(dl, x);
        assert(r =~= ri.push(s.last()));
        assert forall|p: int| 0 <= p < r.len() implies #[trigger] r[p] == x || s.contains(r[p]) by {
            if p < ri.len() {
                assert(ri[p] == x || dl.contains(ri[p]));
                if dl.contains(ri[p]) {
                    let j = choose|j: int| 0 <= j < dl.len() && dl[j] == ri[p];
                    assert(s[j] == ri[p]);
                }
            } else {
                assert(r[p] == s.last());
                assert(s[s.len() - 1] == s.last());
            }
        }
    }
}

/// Inserting into a sorted lane keeps it sorted and adds exactly the new
/// element.
proof fn lemma_insert_orders(s: Seq<Value>, x: Value, t: NDArrayType)
    requires
        lane_typed(s, t),
        lane_all_no_nan(s),
        lane_sorted(s),
        vtype(x) == t,
        !value_is_nan(x),
    ensures
        insert_sorted(s, x).len() == s.len() + 1,
        insert_sorted(s, x).to_multiset() == s.to_multiset().insert(x),
        lane_sorted(insert_sorted(s, x)),
    decreases s.len(),
{
    let r = insert_sorted(s, x);
    s.to_multiset_ensures();
    if s.len() == 0 {
        assert(r =~= seq![x]);
        assert(r =~= Seq::<Value>::empty().push(x));
        Seq::<Value>::empty().to_multiset_ensures();
    } else if !value_lt(x, s.last()) {
        // x goes to the end: everything already there precedes it
        lemma_value_order_total(x, s.last());
        assert forall|p: int, q: int|
            0 <= p < q < r.len() implies value_le(#[trigger] r[p], #[trigger] r[q]) by {
            if q == r.len() - 1 {
                if p < s.len() - 1 {
                    assert(value_le(s[p], s.last()));
                    lemma_value_order_trans(s[p], s.last(), x);
                }
            }
        }
    } else {
        let dl = s.drop_last();
        assert(lane_typed(dl, t));
        assert(lane_all_no_nan(dl));
        assert(lane_sorted(dl));
        lemma_insert_orders(dl, x, t);
        lemma_insert_origin(dl, x, t);
        let ri = insert_sorted(dl, x);
        assert(r =~= ri.push(s.last()));
        // multisets: both sides append the old last element
        ri.to_multiset_ensures();
        dl.to_multiset_ensures();
        assert(dl.push(s.last()) =~= s);
        assert(r.to_multiset() == ri.to_multiset().insert(s.last()));
        assert(s.to_multiset() == dl.to_multiset().insert(s.last()));
        assert(ri.to_multiset() == dl.to_multiset().insert(x));
        assert(dl.to_multiset().insert(x).insert(s.last()) =~= dl.to_multiset().insert(
            s.last(),
        ).insert(x));
        // order: everything in the inserted prefix precedes the old last
        assert forall|p: int, q: int|
            0 <= p < q < r.len() implies value_le(#[trigger] r[p], #[trigger] r[q]) by {
            if q == r.len() - 1 {
                assert(ri[p] == x || dl.contains(ri[p]));
                if ri[p] == x {
                    lemma_value_order_total(x, s.last());
                } else {
                    let j = choose|j: int| 0 <= j < dl.len() && dl[j] == ri[p];
                    assert(value_le(s[j], s.last()));
                }
            }
        }
    }
}


/// Every index a stable argsort emits is a position of the lane.
proof fn lemma_argsort_in_range(keys: Seq<Value>, n: int)
    requires
        0 <= n <= keys.len(),
    ensures
        argsort_spec(keys, n).len() == n,
        forall|t: int| 0 <= t < n ==> 0 <= #[trigger] argsort_spec(keys, n)[t] < n,
    decreases n,
{
    lemma_argsort_len(keys, n);
    if n > 0 {
        lemma_argsort_in_range(keys, n - 1);
        lemma_insert_idx_range(argsort_spec(keys, n - 1), keys, n - 1, n);
    }
}

proof fn lemma_insert_idx_range(r: Seq<int>, keys: Seq<Value>, i: int, n: int)
    requires
        forall|t: int| 0 <= t < r.len() ==> 0 <= #[trigger] r[t] < n,
        0 <= i < n,
    ensures
        insert_idx(r, keys, i).len() == r.len() + 1,
        forall|t: int|
            0 <= t < insert_idx(r, keys, i).len() ==> 0 <= #[trigger] insert_idx(r, keys, i)[t]
                < n,
    decreases r.len(),
{
    lemma_insert_idx_len(r, keys, i);
    if r.len() > 0 && value_lt(keys[i], keys[r.last()]) {
        assert(forall|t: int|
            0 <= t < r.drop_last().len() ==> 0 <= #[trigger] r.drop_last()[t] < n);
        lemma_insert_idx_range(r.drop_last(), keys, i, n);
    }
}

/// At the whole-array level: along any axis of an Int or Float array, the
/// sorted lanes are exactly the original lanes read through the argsort
/// indices: gathering with `axis_argsort`'s output reproduces `axis_sort`.
pub proof fn lemma_axis_argsort_gathers_sort(
    elems: Seq<Value>,
    s: Seq<usize>,
    tp: NDArrayType,
    ax: int,
    idx_out: Seq<Value>,
    sort_out: Seq<Value>,
)
    requires
        tp != NDArrayType::Bool,
        lane_typed(elems, tp),
        0 <= ax < s.len(),
        s[ax] <= i64::MAX,
        axis_semantics(elems, s, tp, ax, AxisOp::Argsort, idx_out),
        axis_semantics(elems, s, tp, ax, AxisOp::Sort, sort_out),
    ensures
        forall|o: int, t: int, ii: int|
            #![trigger idx_out[(o * (s[ax] as int) + t) * crate::shape::sufprod(s, ax + 1) + ii]]
            0 <= o < crate::shape::prod(s.take(ax)) && 0 <= t < s[ax] && 0 <= ii
                < crate::shape::sufprod(s, ax + 1) ==> {
                let m = s[ax] as int;
                let inner = crate::shape::sufprod(s, ax + 1);
                let pos = (o * m + t) * inner + ii;
                &&& 0 <= crate::value::as_int(idx_out[pos]) < m
                &&& sort_out[pos] == elems[(o * m + crate::value::as_int(idx_out[pos])) * inner
                    + ii]
            },
{
    let m = s[ax] as int;
    let inner = crate::shape::sufprod(s, ax + 1);
    let outer = crate::shape::prod(s.take(ax));
    let wdata = elems.map_values(|v: Value| crate::value::cast_spec(v, tp));
    assert(wdata =~= elems) by {
        assert forall|i: int| 0 <= i < elems.len() implies wdata[i] == elems[i] by {
            assert(vtype(elems[i]) == tp);
        }
    }
    assert forall|o: int, t: int, ii: int|
        #![trigger idx_out[(o * (s[ax] as int) + t) * crate::shape::sufprod(s, ax + 1) + ii]]
        0 <= o < outer && 0 <= t < m && 0 <= ii < inner implies {
        let pos = (o * m + t) * inner + ii;
        &&& 0 <= crate::value::as_int(idx_out[pos]) < m
        &&& sort_out[pos] == elems[(o * m + crate::value::as_int(idx_out[pos])) * inner + ii]
    } by {
        let lane = lane_seq(elems, m, inner, o, ii);
        lemma_argsort_in_range(lane, m);
        lemma_argsort_gather_is_sort(lane);
        let pos = (o * m + t) * inner + ii;
        assert(crate::algorithms::axis_out_m(AxisOp::Argsort, m) == m);
        assert(crate::algorithms::axis_out_m(AxisOp::Sort, m) == m);
        assert(crate::algorithms::axis_work_type(AxisOp::Argsort, tp) == tp);
        assert(crate::algorithms::axis_work_type(AxisOp::Sort, tp) == tp);
        assert(lane_seq(wdata, m, inner, o, ii) == lane);
        assert(idx_out[pos] == crate::algorithms::axis_lane_spec(AxisOp::Argsort, lane, tp)[t]);
        assert(sort_out[pos] == crate::algorithms::axis_lane_spec(AxisOp::Sort, lane, tp)[t]);
        let j = argsort_spec(lane, m)[t];
        assert(idx_out[pos] == Value::Int(j as i64));
        assert(crate::value::as_int(idx_out[pos]) == j);
        assert(sort_out[pos] == sort_spec(lane)[t]);
        assert(Seq::new(lane.len(), |t2: int| lane[argsort_spec(lane, m)[t2]])[t] == lane[j]);
        assert(lane[j] == elems[(o * m + j) * inner + ii]);
    }
}

/// At the whole-array level: differencing the running sums along an axis of
/// an Int (or Bool, widened) array recovers the array but for each lane's
/// first element.
pub proof fn lemma_axis_diff_of_cumsum(
    elems: Seq<Value>,
    s: Seq<usize>,
    tp: NDArrayType,
    ax: int,
    c_out: Seq<Value>,
    d_out: Seq<Value>,
)
    requires
        tp != NDArrayType::Float,
        lane_typed(c_out, NDArrayType::Int),
        0 <= ax < s.len(),
        axis_semantics(elems, s, tp, ax, AxisOp::Cumsum, c_out),
        axis_semantics(c_out, s, NDArrayType::Int, ax, AxisOp::Diff, d_out),
        elems.len() == crate::shape::prod(s.take(ax)) * (s[ax] as int * crate::shape::sufprod(
            s,
            ax + 1,
        )),
        c_out.len() == crate::shape::prod(s.take(ax)) * (s[ax] as int * crate::shape::sufprod(
            s,
            ax + 1,
        )),
    ensures
        forall|o: int, t: int, ii: int|
            #![trigger d_out[(o * (s[ax] - 1) + t) * crate::shape::sufprod(s, ax + 1) + ii]]
            0 <= o < crate::shape::prod(s.take(ax)) && 0 <= t < s[ax] - 1 && 0 <= ii
                < crate::shape::sufprod(s, ax + 1) ==> d_out[(o * (s[ax] - 1) + t)
                * crate::shape::sufprod(s, ax + 1) + ii] == crate::value::cast_spec(
                elems[(o * (s[ax] as int) + (t + 1)) * crate::shape::sufprod(s, ax + 1) + ii],
                NDArrayType::Int,
            ),
{
    let m = s[ax] as int;
    let inner = crate::shape::sufprod(s, ax + 1);
    let outer = crate::shape::prod(s.take(ax));
    let wdata = elems.map_values(|v: Value| crate::value::cast_spec(v, NDArrayType::Int));
    let cdata = c_out.map_values(|v: Value| crate::value::cast_spec(v, NDArrayType::Int));
    assert(cdata =~= c_out) by {
        assert forall|i: int| 0 <= i < c_out.len() implies cdata[i] == c_out[i] by {
            assert(vtype(c_out[i]) == NDArrayType::Int);
        }
    }
    assert forall|o: int, t: int, ii: int|
        #![trigger d_out[(o * (s[ax] - 1) + t) * crate::shape::sufprod(s, ax + 1) + ii]]
        0 <= o < outer && 0 <= t < m - 1 && 0 <= ii < inner implies d_out[(o * (s[ax] - 1) + t)
        * crate::shape::sufprod(s, ax + 1) + ii] == crate::value::cast_spec(
        elems[(o * (s[ax] as int) + (t + 1)) * crate::shape::sufprod(s, ax + 1) + ii],
        NDArrayType::Int,
    ) by {
        let lane_w = lane_seq(wdata, m, inner, o, ii);
        let lane_c = lane_seq(c_out, m, inner, o, ii);
        assert(crate::algorithms::axis_out_m(AxisOp::Cumsum, m) == m);
        assert(crate::algorithms::axis_out_m(AxisOp::Diff, m) == m - 1);
        assert(crate::algorithms::axis_work_type(AxisOp::Cumsum, tp) == NDArrayType::Int);
        assert(crate::algorithms::axis_work_type(AxisOp::Diff, NDArrayType::Int)
            == NDArrayType::Int);
        assert(lane_seq(cdata, m, inner, o, ii) == lane_c);
        // the cumsum lanes are the running sums of the widened input lanes
        assert(lane_c =~= cumsum_spec(lane_w, NDArrayType::Int)) by {
            assert forall|t2: int| 0 <= t2 < m implies lane_c[t2] == cumsum_spec(
                lane_w,
                NDArrayType::Int,
            )[t2] by {
                assert(c_out[(o * m + t2) * inner + ii] == crate::algorithms::axis_lane_spec(
                    AxisOp::Cumsum,
                    lane_w,
                    NDArrayType::Int,
                )[t2]);
            }
        }
        assert(lane_typed(lane_w, NDArrayType::Int)) by {
            assert forall|t2: int| 0 <= t2 < m implies vtype(#[trigger] lane_w[t2])
                == NDArrayType::Int by {
                lemma_lane_pos_in(outer, m, inner, o, t2, ii, wdata.len() as int);
                assert(lane_w[t2] == wdata[(o * m + t2) * inner + ii]);
            }
        }
        lemma_diff_of_cumsum(lane_w);
        // the diff lane of the cumsum output
        assert(d_out[(o * (m - 1) + t) * inner + ii] == crate::algorithms::axis_lane_spec(
            AxisOp::Diff,
            lane_c,
            NDArrayType::Int,
        )[t]);
        assert(diff_spec(lane_c)[t] == diff_spec(cumsum_spec(lane_w, NDArrayType::Int))[t]);
        assert(diff_spec(cumsum_spec(lane_w, NDArrayType::Int))[t] == lane_w[t + 1]);
        assert(lane_w[t + 1] == wdata[(o * m + (t + 1)) * inner + ii]);
        lemma_lane_pos_in(outer, m, inner, o, t + 1, ii, wdata.len() as int);
    }
}

/// A lane position is a position of the flat data.
proof fn lemma_lane_pos_in(outer: int, m: int, inner: int, o: int, t: int, ii: int, len: int)
    requires
        0 <= o < outer,
        0 <= t < m,
        0 <= ii < inner,
        len == outer * (m * inner),
    ensures
        0 <= (o * m + t) * inner + ii < len,
{
    crate::algorithms::lemma_lane3(o, outer, m, t, inner, ii);
}

} // verus!
