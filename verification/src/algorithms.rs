use vstd::prelude::*;
use crate::floatbits::f64_of_i64;
use crate::owned::{Buffer, NDArrayOwned};
use crate::value::{
    binop_spec, binop_val, value_is_nan, value_lt, value_lt_exec, vtype, zero_value, BinOp, Value,
};
use crate::NDArrayType;

verus! {

// The axis-generic algorithms: reductions and transformations of one named
// axis. An array of shape `pre + [m] + post` is a grid of `prod(pre)` by
// `prod(post)` lanes of length `m`; every operation here maps each lane
// independently to an output lane.

/// Lane `(o, ii)` of a flat row-major buffer split as `outer x m x inner`.
pub open spec fn lane_seq(data: Seq<Value>, m: int, inner: int, o: int, ii: int) -> Seq<Value> {
    Seq::new(m as nat, |t: int| data[(o * m + t) * inner + ii])
}

/// Every value a buffer holds carries the buffer's element type.
pub proof fn lemma_buffer_typed(b: &Buffer)
    ensures
        forall|i: int| 0 <= i < b.vals().len() ==> vtype(#[trigger] b.vals()[i]) == b.elem_type(),
{
    assert forall|i: int|
        0 <= i < b.vals().len() implies vtype(#[trigger] b.vals()[i]) == b.elem_type() by {
        match b {
            Buffer::Int(v) => {
                assert(b.vals()[i] == Value::Int(v@[i]));
            },
            Buffer::Float(v) => {
                assert(b.vals()[i] == Value::Float(v@[i]));
            },
            Buffer::Bool(v) => {
                assert(b.vals()[i] == Value::Bool(v@[i]));
            },
        }
    }
}

// --- per-lane mathematics ---

/// Left fold of wraparound/IEEE addition over a lane, starting from zero.
pub open spec fn lane_fold_sum(s: Seq<Value>, t: NDArrayType) -> Value
    decreases s.len(),
{
    if s.len() == 0 {
        zero_value(t)
    } else {
        binop_spec(BinOp::Sum, lane_fold_sum(s.drop_last(), t), s.last())
    }
}

/// The count of a lane as a value of the lane's type.
pub open spec fn count_value(t: NDArrayType, m: int) -> Value {
    if t == NDArrayType::Float {
        Value::Float(f64_of_i64(m as i64))
    } else {
        Value::Int(m as i64)
    }
}

/// Population mean: the fold divided by the count, in the lane's type.
pub open spec fn lane_mean(s: Seq<Value>, t: NDArrayType) -> Value {
    binop_spec(BinOp::Div, lane_fold_sum(s, t), count_value(t, s.len() as int))
}

/// Population variance of a Float lane: mean of squared deviations.
pub open spec fn lane_var(s: Seq<Value>) -> Value {
    let n = count_value(NDArrayType::Float, s.len() as int);
    let mu = binop_spec(BinOp::Div, lane_fold_sum(s, NDArrayType::Float), n);
    let sq = s.map_values(
        |x: Value|
            binop_spec(BinOp::Mul, binop_spec(BinOp::Sub, x, mu), binop_spec(BinOp::Sub, x, mu)),
    );
    binop_spec(BinOp::Div, lane_fold_sum(sq, NDArrayType::Float), n)
}

/// The smallest element; the earliest of equals, as a forward fold with a
/// strict comparison keeps.
pub open spec fn lane_min(s: Seq<Value>) -> Value
    decreases s.len(),
{
    if s.len() <= 1 {
        s[0]
    } else {
        let p = lane_min(s.drop_last());
        if value_lt(s.last(), p) {
            s.last()
        } else {
            p
        }
    }
}

/// The largest element; the latest of equals.
pub open spec fn lane_max(s: Seq<Value>) -> Value
    decreases s.len(),
{
    if s.len() <= 1 {
        s[0]
    } else {
        let p = lane_max(s.drop_last());
        if value_lt(s.last(), p) {
            p
        } else {
            s.last()
        }
    }
}

/// Position of the smallest element; the earliest of equals.
pub open spec fn lane_argmin(s: Seq<Value>) -> int
    decreases s.len(),
{
    if s.len() <= 1 {
        0
    } else {
        let p = lane_argmin(s.drop_last());
        if value_lt(s.last(), s[p]) {
            s.len() - 1
        } else {
            p
        }
    }
}

/// Position of the largest element; the latest of equals.
pub open spec fn lane_argmax(s: Seq<Value>) -> int
    decreases s.len(),
{
    if s.len() <= 1 {
        0
    } else {
        let p = lane_argmax(s.drop_last());
        if value_lt(s.last(), s[p]) {
            p
        } else {
            s.len() - 1
        }
    }
}

/// Inserts `x` into a sorted lane, after any elements it does not strictly
/// precede: the insertion step of a stable sort.
pub open spec fn insert_sorted(s: Seq<Value>, x: Value) -> Seq<Value>
    decreases s.len(),
{
    if s.len() == 0 {
        seq![x]
    } else if !value_lt(x, s.last()) {
        s.push(x)
    } else {
        insert_sorted(s.drop_last(), x).push(s.last())
    }
}

/// Stable insertion sort of a lane by the key order.
pub open spec fn sort_spec(s: Seq<Value>) -> Seq<Value>
    decreases s.len(),
{
    if s.len() == 0 {
        Seq::empty()
    } else {
        insert_sorted(sort_spec(s.drop_last()), s.last())
    }
}

/// Inserts index `i` into an index lane sorted by `keys`, after any indices
/// whose keys it does not strictly precede.
pub open spec fn insert_idx(r: Seq<int>, keys: Seq<Value>, i: int) -> Seq<int>
    decreases r.len(),
{
    if r.len() == 0 {
        seq![i]
    } else if !value_lt(keys[i], keys[r.last()]) {
        r.push(i)
    } else {
        insert_idx(r.drop_last(), keys, i).push(r.last())
    }
}

/// The permutation a stable sort of `keys.take(n)` applies: index `t` of the
/// sorted lane reads `keys[argsort_spec(keys, n)[t]]`.
pub open spec fn argsort_spec(keys: Seq<Value>, n: int) -> Seq<int>
    decreases n,
{
    if n <= 0 {
        Seq::empty()
    } else {
        insert_idx(argsort_spec(keys, n - 1), keys, n - 1)
    }
}

/// Running sums along the lane: element `t` folds the first `t + 1`
/// elements.
pub open spec fn cumsum_spec(s: Seq<Value>, t: NDArrayType) -> Seq<Value> {
    Seq::new(s.len(), |i: int| lane_fold_sum(s.take(i + 1), t))
}

/// Forward differences: element `t` is `s[t+1] - s[t]`; one shorter.
pub open spec fn diff_spec(s: Seq<Value>) -> Seq<Value> {
    Seq::new((s.len() - 1) as nat, |i: int| binop_spec(BinOp::Sub, s[i + 1], s[i]))
}

// --- per-lane executables, each mirroring its specification ---

/// Whether a lane is uniformly of type `t`.
pub open spec fn lane_typed(s: Seq<Value>, t: NDArrayType) -> bool {
    forall|i: int| 0 <= i < s.len() ==> vtype(#[trigger] s[i]) == t
}

pub open spec fn lane_no_nan(s: Seq<Value>) -> bool {
    forall|i: int| 0 <= i < s.len() ==> !value_is_nan(#[trigger] s[i])
}

fn fold_sum_exec(lane: &Vec<Value>, t: NDArrayType) -> (r: Value)
    requires
        lane_typed(lane@, t),
        t != NDArrayType::Bool,
    ensures
        r == lane_fold_sum(lane@, t),
        vtype(r) == t,
{
    let n = lane.len();
    let mut acc = crate::value::zero_of(t);
    let mut i: usize = 0;
    while i < n
        invariant
            0 <= i <= n,
            n == lane@.len(),
            lane_typed(lane@, t),
            t != NDArrayType::Bool,
            acc == lane_fold_sum(lane@.take(i as int), t),
            vtype(acc) == t,
        decreases n - i,
    {
        proof {
            assert(lane@.take(i + 1).drop_last() =~= lane@.take(i as int));
            assert(lane@.take(i + 1).last() == lane@[i as int]);
            lemma_sum_type(lane@.take(i + 1), t);
        }
        let x = lane[i];
        let v = match binop_val(BinOp::Sum, &acc, &x) {
            Ok(v) => v,
            Err(_) => {
                proof {
                    assert(false);
                }
                acc
            },
        };
        acc = v;
        i += 1;
    }
    proof {
        assert(lane@.take(n as int) =~= lane@);
    }
    acc
}

/// A fold of additions over a non-boolean uniformly typed lane has the
/// lane's type.
pub proof fn lemma_sum_type(s: Seq<Value>, t: NDArrayType)
    requires
        lane_typed(s, t),
        t != NDArrayType::Bool,
    ensures
        vtype(lane_fold_sum(s, t)) == t,
    decreases s.len(),
{
    if s.len() > 0 {
        assert(lane_typed(s.drop_last(), t));
        lemma_sum_type(s.drop_last(), t);
    }
}

fn min_max_exec(lane: &Vec<Value>, want_max: bool) -> (r: Value)
    requires
        lane@.len() >= 1,
        lane_typed(lane@, vtype(lane@[0])),
    ensures
        !want_max ==> r == lane_min(lane@),
        want_max ==> r == lane_max(lane@),
{
    let n = lane.len();
    let mut best = lane[0];
    let mut i: usize = 1;
    proof {
        assert(lane@.take(1)[0] == lane@[0]);
    }
    while i < n
        invariant
            1 <= i <= n,
            n == lane@.len(),
            lane_typed(lane@, vtype(lane@[0])),
            !want_max ==> best == lane_min(lane@.take(i as int)),
            want_max ==> best == lane_max(lane@.take(i as int)),
            vtype(best) == vtype(lane@[0]),
        decreases n - i,
    {
        proof {
            assert(lane@.take(i + 1).drop_last() =~= lane@.take(i as int));
            assert(lane@.take(i + 1).last() == lane@[i as int]);
            lemma_min_max_type(lane@.take(i as int), vtype(lane@[0]));
        }
        let x = lane[i];
        if want_max {
            if !value_lt_exec(&x, &best) {
                best = x;
            }
        } else {
            if value_lt_exec(&x, &best) {
                best = x;
            }
        }
        i += 1;
    }
    proof {
        assert(lane@.take(n as int) =~= lane@);
    }
    best
}

proof fn lemma_min_max_type(s: Seq<Value>, t: NDArrayType)
    requires
        s.len() >= 1,
        lane_typed(s, t),
    ensures
        vtype(lane_min(s)) == t,
        vtype(lane_max(s)) == t,
    decreases s.len(),
{
    if s.len() > 1 {
        assert(lane_typed(s.drop_last(), t));
        lemma_min_max_type(s.drop_last(), t);
    }
}

fn arg_min_max_exec(lane: &Vec<Value>, want_max: bool) -> (r: usize)
    requires
        lane@.len() >= 1,
        lane_typed(lane@, vtype(lane@[0])),
    ensures
        !want_max ==> r == lane_argmin(lane@),
        want_max ==> r == lane_argmax(lane@),
        r < lane@.len(),
{
    let n = lane.len();
    let mut best: usize = 0;
    let mut i: usize = 1;
    proof {
        lemma_arg_bounds(lane@.take(1));
    }
    while i < n
        invariant
            1 <= i <= n,
            n == lane@.len(),
            lane_typed(lane@, vtype(lane@[0])),
            best < i,
            !want_max ==> best == lane_argmin(lane@.take(i as int)),
            want_max ==> best == lane_argmax(lane@.take(i as int)),
        decreases n - i,
    {
        proof {
            assert(lane@.take(i + 1).drop_last() =~= lane@.take(i as int));
            assert(lane@.take(i + 1).last() == lane@[i as int]);
            lemma_arg_bounds(lane@.take(i as int));
        }
        let x = lane[i];
        let b = lane[best];
        if want_max {
            if !value_lt_exec(&x, &b) {
                best = i;
            }
        } else {
            if value_lt_exec(&x, &b) {
                best = i;
            }
        }
        i += 1;
    }
    proof {
        assert(lane@.take(n as int) =~= lane@);
    }
    best
}

/// The positions the argument folds return are on the lane.
pub proof fn lemma_arg_bounds(s: Seq<Value>)
    requires
        s.len() >= 1,
    ensures
        0 <= lane_argmin(s) < s.len(),
        0 <= lane_argmax(s) < s.len(),
    decreases s.len(),
{
    if s.len() > 1 {
        lemma_arg_bounds(s.drop_last());
    }
}

fn insert_sorted_exec(s: Vec<Value>, x: Value) -> (r: Vec<Value>)
    requires
        s@.len() < usize::MAX,
        lane_typed(s@, vtype(x)),
    ensures
        r@ == insert_sorted(s@, x),
        r@.len() == s@.len() + 1,
        lane_typed(r@, vtype(x)),
    decreases s@.len(),
{
    let mut s = s;
    if s.len() == 0 {
        s.push(x);
        proof {
            assert(s@ =~= seq![x]);
        }
        s
    } else {
        let lastv = s[s.len() - 1];
        if !value_lt_exec(&x, &lastv) {
            s.push(x);
            s
        } else {
            let popped = s.pop().unwrap();
            let ghost shead = s@;
            proof {
                assert(lane_typed(s@, vtype(x)));
            }
            let mut r = insert_sorted_exec(s, x);
            r.push(popped);
            proof {
                assert(r@ =~= insert_sorted(shead, x).push(popped));
            }
            r
        }
    }
}

fn sort_lane_exec(lane: &Vec<Value>, t: NDArrayType) -> (r: Vec<Value>)
    requires
        lane_typed(lane@, t),
        lane@.len() < usize::MAX,
    ensures
        r@ == sort_spec(lane@),
        lane_typed(r@, t),
        r@.len() == lane@.len(),
{
    let n = lane.len();
    let mut acc: Vec<Value> = Vec::new();
    let mut i: usize = 0;
    proof {
        lemma_sort_len(lane@.take(0));
    }
    while i < n
        invariant
            0 <= i <= n,
            n == lane@.len(),
            n < usize::MAX,
            lane_typed(lane@, t),
            acc@ == sort_spec(lane@.take(i as int)),
            acc@.len() == i,
            lane_typed(acc@, t),
        decreases n - i,
    {
        proof {
            assert(lane@.take(i + 1).drop_last() =~= lane@.take(i as int));
            assert(lane@.take(i + 1).last() == lane@[i as int]);
        }
        let x = lane[i];
        let ghost accg = acc@;
        let acc2 = insert_sorted_exec(acc, x);
        proof {
            lemma_insert_typed(accg, x, t);
        }
        acc = acc2;
        i += 1;
    }
    proof {
        assert(lane@.take(n as int) =~= lane@);
    }
    acc
}

proof fn lemma_sort_len(s: Seq<Value>)
    ensures
        sort_spec(s).len() == s.len(),
    decreases s.len(),
{
    if s.len() > 0 {
        lemma_sort_len(s.drop_last());
        lemma_insert_len(sort_spec(s.drop_last()), s.last());
    }
}

proof fn lemma_insert_len(s: Seq<Value>, x: Value)
    ensures
        insert_sorted(s, x).len() == s.len() + 1,
    decreases s.len(),
{
    if s.len() > 0 && value_lt(x, s.last()) {
        lemma_insert_len(s.drop_last(), x);
    }
}

proof fn lemma_insert_typed(s: Seq<Value>, x: Value, t: NDArrayType)
    requires
        lane_typed(s, t),
        vtype(x) == t,
    ensures
        lane_typed(insert_sorted(s, x), t),
    decreases s.len(),
{
    if s.len() > 0 && value_lt(x, s.last()) {
        assert(lane_typed(s.drop_last(), t));
        lemma_insert_typed(s.drop_last(), x, t);
    }
}

fn insert_idx_exec(r: Vec<usize>, keys: &Vec<Value>, i: usize) -> (out: Vec<usize>)
    requires
        r@.len() < usize::MAX,
        (i as int) < keys@.len(),
        forall|k: int| 0 <= k < r@.len() ==> (#[trigger] r@[k]) < keys@.len(),
        lane_typed(keys@, vtype(keys@[0])),
        keys@.len() >= 1,
    ensures
        out@.map_values(|u: usize| u as int) == insert_idx(
            r@.map_values(|u: usize| u as int),
            keys@,
            i as int,
        ),
        forall|k: int| 0 <= k < out@.len() ==> (#[trigger] out@[k]) < keys@.len(),
        out@.len() == r@.len() + 1,
    decreases r@.len(),
{
    let mut r = r;
    let ghost ri = r@.map_values(|u: usize| u as int);
    if r.len() == 0 {
        r.push(i);
        proof {
            assert(r@.map_values(|u: usize| u as int) =~= seq![i as int]);
        }
        r
    } else {
        let lastv = r[r.len() - 1];
        let ki = keys[i];
        let kl = keys[lastv];
        if !value_lt_exec(&ki, &kl) {
            r.push(i);
            proof {
                assert(r@.map_values(|u: usize| u as int) =~= ri.push(i as int));
                assert(ri.last() == lastv as int);
            }
            r
        } else {
            let popped = r.pop().unwrap();
            let ghost rhead = r@.map_values(|u: usize| u as int);
            proof {
                assert(rhead =~= ri.drop_last());
            }
            let mut out = insert_idx_exec(r, keys, i);
            out.push(popped);
            proof {
                assert(out@.map_values(|u: usize| u as int) =~= insert_idx(
                    rhead,
                    keys@,
                    i as int,
                ).push(popped as int));
                assert(ri.last() == popped as int);
            }
            out
        }
    }
}

fn argsort_lane_exec(keys: &Vec<Value>) -> (r: Vec<usize>)
    requires
        keys@.len() >= 1,
        keys@.len() < usize::MAX,
        lane_typed(keys@, vtype(keys@[0])),
    ensures
        r@.map_values(|u: usize| u as int) == argsort_spec(keys@, keys@.len() as int),
        forall|k: int| 0 <= k < r@.len() ==> (#[trigger] r@[k]) < keys@.len(),
        r@.len() == keys@.len(),
{
    let n = keys.len();
    let mut acc: Vec<usize> = Vec::new();
    let mut i: usize = 0;
    proof {
        assert(acc@.map_values(|u: usize| u as int) =~= argsort_spec(keys@, 0));
    }
    while i < n
        invariant
            0 <= i <= n,
            n == keys@.len(),
            n < usize::MAX,
            keys@.len() >= 1,
            lane_typed(keys@, vtype(keys@[0])),
            acc@.map_values(|u: usize| u as int) == argsort_spec(keys@, i as int),
            forall|k: int| 0 <= k < acc@.len() ==> (#[trigger] acc@[k]) < keys@.len(),
            acc@.len() == i,
        decreases n - i,
    {
        acc = insert_idx_exec(acc, keys, i);
        i += 1;
    }
    acc
}

// --- the axis-generic dispatch ---

/// The axis operations: reductions collapse the axis, transformations keep
/// it, and diff shrinks it by one.
#[derive(Clone, Copy, PartialEq, Eq, Structural, Debug)]
pub enum AxisOp {
    Sum,
    Mean,
    Var,
    Min,
    Max,
    Argmin,
    Argmax,
    Sort,
    Argsort,
    Cumsum,
    Diff,
}

/// The element type lanes are read in: boolean lanes widen to integers for
/// everything arithmetic, variance is computed in floating point, and sort
/// keeps the array's own type.
pub open spec fn axis_work_type(op: AxisOp, tp: NDArrayType) -> NDArrayType {
    if op == AxisOp::Sort {
        tp
    } else if op == AxisOp::Var {
        NDArrayType::Float
    } else if tp == NDArrayType::Bool {
        NDArrayType::Int
    } else {
        tp
    }
}

/// The element type of the result.
pub open spec fn axis_out_type(op: AxisOp, wt: NDArrayType) -> NDArrayType {
    if op == AxisOp::Argmin || op == AxisOp::Argmax || op == AxisOp::Argsort {
        NDArrayType::Int
    } else {
        wt
    }
}

pub open spec fn axis_reduces(op: AxisOp) -> bool {
    op == AxisOp::Sum || op == AxisOp::Mean || op == AxisOp::Var || op == AxisOp::Min || op
        == AxisOp::Max || op == AxisOp::Argmin || op == AxisOp::Argmax
}

pub open spec fn axis_needs_order(op: AxisOp) -> bool {
    op == AxisOp::Min || op == AxisOp::Max || op == AxisOp::Argmin || op == AxisOp::Argmax || op
        == AxisOp::Sort || op == AxisOp::Argsort
}

pub open spec fn axis_needs_nonempty(op: AxisOp) -> bool {
    op == AxisOp::Mean || op == AxisOp::Var || op == AxisOp::Min || op == AxisOp::Max || op
        == AxisOp::Argmin || op == AxisOp::Argmax || op == AxisOp::Diff
}

/// Output lane length for input lane length `m`.
pub open spec fn axis_out_m(op: AxisOp, m: int) -> int {
    if axis_reduces(op) {
        1
    } else if op == AxisOp::Diff {
        m - 1
    } else {
        m
    }
}

/// What each operation makes of one lane.
pub open spec fn axis_lane_spec(op: AxisOp, s: Seq<Value>, wt: NDArrayType) -> Seq<Value> {
    match op {
        AxisOp::Sum => seq![lane_fold_sum(s, wt)],
        AxisOp::Mean => seq![lane_mean(s, wt)],
        AxisOp::Var => seq![lane_var(s)],
        AxisOp::Min => seq![lane_min(s)],
        AxisOp::Max => seq![lane_max(s)],
        AxisOp::Argmin => seq![Value::Int(lane_argmin(s) as i64)],
        AxisOp::Argmax => seq![Value::Int(lane_argmax(s) as i64)],
        AxisOp::Sort => sort_spec(s),
        AxisOp::Argsort => Seq::new(
            s.len(),
            |t: int| Value::Int(argsort_spec(s, s.len() as int)[t] as i64),
        ),
        AxisOp::Cumsum => cumsum_spec(s, wt),
        AxisOp::Diff => diff_spec(s),
    }
}

fn axis_work_type_exec(op: AxisOp, tp: NDArrayType) -> (t: NDArrayType)
    ensures
        t == axis_work_type(op, tp),
{
    if matches!(op, AxisOp::Sort) {
        tp
    } else if matches!(op, AxisOp::Var) {
        NDArrayType::Float
    } else if tp == NDArrayType::Bool {
        NDArrayType::Int
    } else {
        tp
    }
}

fn axis_out_type_exec(op: AxisOp, wt: NDArrayType) -> (t: NDArrayType)
    ensures
        t == axis_out_type(op, wt),
{
    if matches!(op, AxisOp::Argmin) || matches!(op, AxisOp::Argmax) || matches!(op, AxisOp::Argsort) {
        NDArrayType::Int
    } else {
        wt
    }
}

/// Applies one axis operation to one lane of work-typed values.
fn apply_lane(op: AxisOp, lane: &Vec<Value>, wt: NDArrayType) -> (r: Vec<Value>)
    requires
        lane_typed(lane@, wt),
        op != AxisOp::Sort ==> wt != NDArrayType::Bool,
        op == AxisOp::Var ==> wt == NDArrayType::Float,
        axis_needs_nonempty(op) ==> lane@.len() >= 1,
        axis_needs_order(op) ==> lane_no_nan(lane@),
        lane@.len() < usize::MAX,
        lane@.len() <= i64::MAX,
    ensures
        r@ == axis_lane_spec(op, lane@, wt),
        r@.len() == axis_out_m(op, lane@.len() as int),
        lane_typed(r@, axis_out_type(op, wt)),
{
    let m = lane.len();
    match op {
        AxisOp::Sum => {
            let v = fold_sum_exec(lane, wt);
            let mut r: Vec<Value> = Vec::new();
            r.push(v);
            proof {
                assert(r@ =~= axis_lane_spec(op, lane@, wt));
            }
            r
        },
        AxisOp::Mean => {
            let s = fold_sum_exec(lane, wt);
            let cnt = if wt == NDArrayType::Float {
                Value::Float(crate::floatbits::float_of_int(m as i64))
            } else {
                Value::Int(m as i64)
            };
            proof {
                lemma_sum_type(lane@, wt);
            }
            let v = match binop_val(BinOp::Div, &s, &cnt) {
                Ok(v) => v,
                Err(_) => {
                    proof {
                        assert(false);
                    }
                    s
                },
            };
            let mut r: Vec<Value> = Vec::new();
            r.push(v);
            proof {
                assert(r@ =~= axis_lane_spec(op, lane@, wt));
            }
            r
        },
        AxisOp::Var => {
            let s = fold_sum_exec(lane, NDArrayType::Float);
            let cnt = Value::Float(crate::floatbits::float_of_int(m as i64));
            proof {
                lemma_sum_type(lane@, NDArrayType::Float);
            }
            let mu = match binop_val(BinOp::Div, &s, &cnt) {
                Ok(v) => v,
                Err(_) => {
                    proof {
                        assert(false);
                    }
                    s
                },
            };
            let ghost sqspec = lane@.map_values(
                |x: Value|
                    binop_spec(
                        BinOp::Mul,
                        binop_spec(BinOp::Sub, x, mu),
                        binop_spec(BinOp::Sub, x, mu),
                    ),
            );
            let mut sq: Vec<Value> = Vec::new();
            let mut i: usize = 0;
            while i < m
                invariant
                    0 <= i <= m,
                    m == lane@.len(),
                    lane_typed(lane@, NDArrayType::Float),
                    vtype(mu) == NDArrayType::Float,
                    sqspec == lane@.map_values(
                        |x: Value|
                            binop_spec(
                                BinOp::Mul,
                                binop_spec(BinOp::Sub, x, mu),
                                binop_spec(BinOp::Sub, x, mu),
                            ),
                    ),
                    sq@.len() == i,
                    forall|k: int| 0 <= k < i ==> sq@[k] == sqspec[k],
                    lane_typed(sq@, NDArrayType::Float),
                decreases m - i,
            {
                let x = lane[i];
                let d = match binop_val(BinOp::Sub, &x, &mu) {
                    Ok(v) => v,
                    Err(_) => {
                        proof {
                            assert(false);
                        }
                        x
                    },
                };
                let p = match binop_val(BinOp::Mul, &d, &d) {
                    Ok(v) => v,
                    Err(_) => {
                        proof {
                            assert(false);
                        }
                        d
                    },
                };
                sq.push(p);
                i += 1;
            }
            proof {
                assert(sq@ =~= sqspec);
            }
            let s2 = fold_sum_exec(&sq, NDArrayType::Float);
            proof {
                lemma_sum_type(sq@, NDArrayType::Float);
            }
            let v = match binop_val(BinOp::Div, &s2, &cnt) {
                Ok(v) => v,
                Err(_) => {
                    proof {
                        assert(false);
                    }
                    s2
                },
            };
            let mut r: Vec<Value> = Vec::new();
            r.push(v);
            proof {
                assert(r@ =~= axis_lane_spec(op, lane@, wt));
            }
            r
        },
        AxisOp::Min => {
            let v = min_max_exec(lane, false);
            let mut r: Vec<Value> = Vec::new();
            r.push(v);
            proof {
                lemma_min_max_type(lane@, wt);
                assert(r@ =~= axis_lane_spec(op, lane@, wt));
            }
            r
        },
        AxisOp::Max => {
            let v = min_max_exec(lane, true);
            let mut r: Vec<Value> = Vec::new();
            r.push(v);
            proof {
                lemma_min_max_type(lane@, wt);
                assert(r@ =~= axis_lane_spec(op, lane@, wt));
            }
            r
        },
        AxisOp::Argmin => {
            let idx = arg_min_max_exec(lane, false);
            let mut r: Vec<Value> = Vec::new();
            r.push(Value::Int(idx as i64));
            proof {
                assert(r@ =~= axis_lane_spec(op, lane@, wt));
            }
            r
        },
        AxisOp::Argmax => {
            let idx = arg_min_max_exec(lane, true);
            let mut r: Vec<Value> = Vec::new();
            r.push(Value::Int(idx as i64));
            proof {
                assert(r@ =~= axis_lane_spec(op, lane@, wt));
            }
            r
        },
        AxisOp::Sort => {
            let r = sort_lane_exec(lane, wt);
            proof {
                lemma_sort_len(lane@);
            }
            r
        },
        AxisOp::Argsort => {
            if m == 0 {
                let r: Vec<Value> = Vec::new();
                proof {
                    assert(r@ =~= axis_lane_spec(op, lane@, wt));
                }
                r
            } else {
                let idxs = argsort_lane_exec(lane);
                let mut r: Vec<Value> = Vec::new();
                let mut i: usize = 0;
                while i < m
                    invariant
                        0 <= i <= m,
                        m == lane@.len(),
                        idxs@.len() == m,
                        idxs@.map_values(|u: usize| u as int) == argsort_spec(lane@, m as int),
                        forall|k: int| 0 <= k < m ==> (#[trigger] idxs@[k]) < m,
                        m <= i64::MAX,
                        r@.len() == i,
                        forall|k: int|
                            0 <= k < i ==> r@[k] == Value::Int(
                                argsort_spec(lane@, m as int)[k] as i64,
                            ),
                    decreases m - i,
                {
                    let ix = idxs[i];
                    r.push(Value::Int(ix as i64));
                    proof {
                        assert(argsort_spec(lane@, m as int)[i as int] == idxs@.map_values(
                            |u: usize| u as int,
                        )[i as int]);
                    }
                    i += 1;
                }
                proof {
                    assert(r@ =~= axis_lane_spec(op, lane@, wt));
                }
                r
            }
        },
        AxisOp::Cumsum => {
            let mut acc = crate::value::zero_of(wt);
            let mut r: Vec<Value> = Vec::new();
            let mut i: usize = 0;
            while i < m
                invariant
                    0 <= i <= m,
                    m == lane@.len(),
                    lane_typed(lane@, wt),
                    wt != NDArrayType::Bool,
                    acc == lane_fold_sum(lane@.take(i as int), wt),
                    vtype(acc) == wt,
                    r@.len() == i,
                    forall|k: int| 0 <= k < i ==> r@[k] == lane_fold_sum(lane@.take(k + 1), wt),
                    lane_typed(r@, wt),
                decreases m - i,
            {
                proof {
                    assert(lane@.take(i + 1).drop_last() =~= lane@.take(i as int));
                    assert(lane@.take(i + 1).last() == lane@[i as int]);
                    lemma_sum_type(lane@.take(i + 1), wt);
                }
                let x = lane[i];
                let v = match binop_val(BinOp::Sum, &acc, &x) {
                    Ok(v) => v,
                    Err(_) => {
                        proof {
                            assert(false);
                        }
                        acc
                    },
                };
                acc = v;
                r.push(acc);
                i += 1;
            }
            proof {
                assert(r@ =~= axis_lane_spec(op, lane@, wt));
            }
            r
        },
        AxisOp::Diff => {
            let mut r: Vec<Value> = Vec::new();
            let mut i: usize = 0;
            while i < m - 1
                invariant
                    0 <= i <= m - 1,
                    m == lane@.len(),
                    m >= 1,
                    lane_typed(lane@, wt),
                    wt != NDArrayType::Bool,
                    r@.len() == i,
                    forall|k: int|
                        0 <= k < i ==> r@[k] == binop_spec(BinOp::Sub, lane@[k + 1], lane@[k]),
                    lane_typed(r@, wt),
                decreases m - 1 - i,
            {
                let x = lane[i + 1];
                let y = lane[i];
                let v = match binop_val(BinOp::Sub, &x, &y) {
                    Ok(v) => v,
                    Err(_) => {
                        proof {
                            assert(false);
                        }
                        x
                    },
                };
                r.push(v);
                i += 1;
            }
            proof {
                assert(r@ =~= axis_lane_spec(op, lane@, wt));
            }
            r
        },
    }
}

/// Reads lane `(o, ii)` of a flat buffer split as `outer x m x inner`.
fn lane_read(data: &Buffer, m: usize, inner: usize, outer: usize, o: usize, ii: usize) -> (r: Vec<
    Value,
>)
    requires
        o < outer,
        ii < inner,
        outer as int * (m as int * inner as int) == data.vals().len(),
    ensures
        r@ == lane_seq(data.vals(), m as int, inner as int, o as int, ii as int),
        lane_typed(r@, data.elem_type()),
        r@.len() == m,
{
    let mut r: Vec<Value> = Vec::new();
    let nbuf = data.len();
    let mut t: usize = 0;
    proof {
        lemma_buffer_typed(data);
    }
    while t < m
        invariant
            0 <= t <= m,
            o < outer,
            ii < inner,
            nbuf == data.vals().len(),
            outer as int * (m as int * inner as int) == data.vals().len(),
            forall|i: int|
                0 <= i < data.vals().len() ==> vtype(#[trigger] data.vals()[i])
                    == data.elem_type(),
            r@.len() == t,
            forall|k: int|
                0 <= k < t ==> r@[k] == data.vals()[((o as int) * (m as int) + k) * (inner as int)
                    + ii],
            lane_typed(r@, data.elem_type()),
        decreases m - t,
    {
        proof {
            lemma_lane3(o as int, outer as int, m as int, t as int, inner as int, ii as int);
        }
        let v = data.get((o * m + t) * inner + ii);
        r.push(v);
        t += 1;
    }
    proof {
        assert(r@ =~= lane_seq(data.vals(), m as int, inner as int, o as int, ii as int));
    }
    r
}

/// The shape of the result: reductions drop the axis, transformations keep
/// it at the output lane length.
pub open spec fn axis_out_shape(s: Seq<usize>, axis: int, op: AxisOp) -> Seq<usize> {
    if axis_reduces(op) {
        s.remove(axis)
    } else {
        s.update(axis, axis_out_m(op, s[axis] as int) as usize)
    }
}

/// The result's lanes, element by element: position `(o, t, ii)` of the
/// output holds element `t` of the operation applied to input lane
/// `(o, ii)`, read in the work type.
pub open spec fn axis_semantics(
    elems: Seq<Value>,
    s: Seq<usize>,
    tp: NDArrayType,
    axis: int,
    op: AxisOp,
    out: Seq<Value>,
) -> bool {
    let wt = axis_work_type(op, tp);
    let outer = crate::shape::prod(s.take(axis));
    let inner = crate::shape::sufprod(s, axis + 1);
    let m = s[axis] as int;
    let mm = axis_out_m(op, m);
    let wdata = elems.map_values(|v: Value| crate::value::cast_spec(v, wt));
    forall|o: int, t: int, ii: int|
        0 <= o < outer && 0 <= t < mm && 0 <= ii < inner ==> #[trigger] out[(o * mm + t) * inner
            + ii] == axis_lane_spec(op, lane_seq(wdata, m, inner, o, ii), wt)[t]
}

pub open spec fn axis_content_ok(a: &NDArrayOwned, axis: int, op: AxisOp, out: Seq<Value>) -> bool {
    axis_semantics(a.elems(), a.shape@, a.tp(), axis, op, out)
}

/// The output element count factors as outer x output-lane x inner.
proof fn lemma_axis_out_count(s: Seq<usize>, axis: int, op: AxisOp)
    requires
        0 <= axis < s.len(),
        axis_out_m(op, s[axis] as int) >= 0,
    ensures
        crate::shape::prod(axis_out_shape(s, axis, op)) == crate::shape::prod(s.take(axis)) * (
        axis_out_m(op, s[axis] as int) * crate::shape::sufprod(s, axis + 1)),
{
    let r = axis_out_shape(s, axis, op);
    if axis_reduces(op) {
        crate::ops::lemma_prod_split(r, axis);
        assert(r.take(axis) =~= s.take(axis));
        assert(r.skip(axis) =~= s.skip(axis + 1));
        crate::ops::lemma_skip_is_sufprod(r, axis);
        crate::ops::lemma_skip_is_sufprod(s, axis + 1);
        let pre = crate::shape::prod(s.take(axis));
        let inner = crate::shape::sufprod(s, axis + 1);
        assert(pre * inner == pre * (1 * inner)) by (nonlinear_arith);
    } else {
        crate::ops::lemma_prod_split(r, axis);
        assert(r.take(axis) =~= s.take(axis));
        assert(r.skip(axis + 1) =~= s.skip(axis + 1));
        crate::ops::lemma_skip_is_sufprod(r, axis + 1);
        crate::ops::lemma_skip_is_sufprod(s, axis + 1);
        assert(crate::shape::sufprod(r, axis) == r[axis] * crate::shape::sufprod(r, axis + 1));
    }
}

/// Distinct lane positions have distinct flat indices.
proof fn lemma_lane3_unique(
    mm: int,
    inner: int,
    o1: int,
    t1: int,
    ii1: int,
    o2: int,
    t2: int,
    ii2: int,
)
    requires
        0 <= t1 < mm,
        0 <= t2 < mm,
        0 <= ii1 < inner,
        0 <= ii2 < inner,
        0 <= o1,
        0 <= o2,
        (o1 * mm + t1) * inner + ii1 == (o2 * mm + t2) * inner + ii2,
    ensures
        o1 == o2,
        t1 == t2,
        ii1 == ii2,
{
    let q1 = o1 * mm + t1;
    let q2 = o2 * mm + t2;
    let p = q1 * inner + ii1;
    vstd::arithmetic::mul::lemma_mul_nonnegative(o1, mm);
    vstd::arithmetic::mul::lemma_mul_nonnegative(o2, mm);
    vstd::arithmetic::div_mod::lemma_fundamental_div_mod_converse_mod(p, inner, q1, ii1);
    vstd::arithmetic::div_mod::lemma_fundamental_div_mod_converse_mod(p, inner, q2, ii2);
    vstd::arithmetic::div_mod::lemma_fundamental_div_mod_converse_div(p, inner, q1, ii1);
    vstd::arithmetic::div_mod::lemma_fundamental_div_mod_converse_div(p, inner, q2, ii2);
    vstd::arithmetic::div_mod::lemma_fundamental_div_mod_converse_mod(q1, mm, o1, t1);
    vstd::arithmetic::div_mod::lemma_fundamental_div_mod_converse_mod(q1, mm, o2, t2);
    vstd::arithmetic::div_mod::lemma_fundamental_div_mod_converse_div(q1, mm, o1, t1);
    vstd::arithmetic::div_mod::lemma_fundamental_div_mod_converse_div(q1, mm, o2, t2);
}

/// Applies one axis operation to every lane of the array along `axis`.
pub fn axis_apply(a: &NDArrayOwned, axis: usize, op: AxisOp) -> (r: NDArrayOwned)
    requires
        a.wf(),
        (axis as int) < a.shape@.len(),
        a.shape@[axis as int] < usize::MAX,
        axis_needs_nonempty(op) ==> a.shape@[axis as int] >= 1,
        axis_needs_order(op) && a.tp() == NDArrayType::Float ==> lane_no_nan(a.elems()),
        crate::shape::prod(axis_out_shape(a.shape@, axis as int, op)) <= i64::MAX,
        crate::shape::prod(axis_out_shape(a.shape@, axis as int, op)) <= usize::MAX,
    ensures
        r.wf(),
        r.tp() == axis_out_type(op, axis_work_type(op, a.tp())),
        r.shape@ =~= axis_out_shape(a.shape@, axis as int, op),
        axis_content_ok(a, axis as int, op, r.elems()),
{
    let ghost s = a.shape@;
    let tp = a.tp_exec();
    let wt = axis_work_type_exec(op, tp);
    let work = a.cast(wt);
    proof {
        assert(work.elems() =~= a.elems().map_values(
            |v: Value| crate::value::cast_spec(v, wt),
        ));
    }
    let out_t = axis_out_type_exec(op, wt);
    let ndim = a.shape.len();
    let m = a.shape[axis];
    let reduces = matches!(
        op,
        AxisOp::Sum
            | AxisOp::Mean
            | AxisOp::Var
            | AxisOp::Min
            | AxisOp::Max
            | AxisOp::Argmin
            | AxisOp::Argmax,
    );
    let mm: usize = if reduces {
        1
    } else if matches!(op, AxisOp::Diff) {
        m - 1
    } else {
        m
    };
    // build the output shape
    let mut out_shape: Vec<usize> = Vec::new();
    let mut k: usize = 0;
    while k < ndim
        invariant
            0 <= k <= ndim,
            ndim == s.len(),
            s == a.shape@,
            (axis as int) < ndim,
            reduces == axis_reduces(op),
            mm == axis_out_m(op, s[axis as int] as int),
            out_shape@.len() == (if reduces && k > axis {
                k - 1
            } else {
                k as int
            }),
            forall|i: int|
                0 <= i < out_shape@.len() ==> (#[trigger] out_shape@[i]) == axis_out_shape(
                    s,
                    axis as int,
                    op,
                )[i],
        decreases ndim - k,
    {
        if k == axis {
            if !reduces {
                out_shape.push(mm);
            }
        } else {
            out_shape.push(a.shape[k]);
        }
        k += 1;
    }
    proof {
        assert(out_shape@ =~= axis_out_shape(s, axis as int, op));
        lemma_axis_out_count(s, axis as int, op);
    }
    let total_out = crate::shape::prod_exec(&out_shape);
    let ghost outer_g = crate::shape::prod(s.take(axis as int));
    let ghost inner_g = crate::shape::sufprod(s, axis as int + 1);
    if total_out == 0 {
        let rr = NDArrayOwned::new(out_t, out_shape);
        proof {
            assert forall|o: int, t: int, ii: int|
                0 <= o < outer_g && 0 <= t < (mm as int) && 0 <= ii < inner_g implies #[trigger] rr.elems()[(
            o * (mm as int) + t) * inner_g + ii] == axis_lane_spec(
                op,
                lane_seq(work.elems(), m as int, inner_g, o, ii),
                wt,
            )[t] by {
                lemma_lane3(o, outer_g, mm as int, t, inner_g, ii);
                assert(false);
            }
        }
        return rr;
    }
    proof {
        crate::shape::lemma_sufprod_pos(out_shape@, 0);
        crate::shape::lemma_sufprod_nonneg(s.take(axis as int), 0);
        crate::shape::lemma_sufprod_nonneg(s, axis as int + 1);
        // the outer and inner factors are positive and computable
        assert(outer_g * ((mm as int) * inner_g) > 0);
        lemma_pos_factors(outer_g, mm as int, inner_g, total_out as int);
        crate::ops::lemma_prod_split(s, axis as int);
        assert(work.elems().len() == outer_g * crate::shape::sufprod(s, axis as int));
        assert(crate::shape::sufprod(s, axis as int) == (m as int) * inner_g);
    }
    proof {
        assert(a.shape@.len() <= usize::MAX);
    }
    let (outer, inner) = crate::ops::split_products(&a.shape, axis);
    let ghost wdata = work.elems();
    proof {
        // the input lane length is bounded by the buffer when lanes exist
        if m >= 1 {
            assert((m as int) <= outer_g * ((m as int) * inner_g)) by (nonlinear_arith)
                requires
                    outer_g >= 1,
                    inner_g >= 1,
                    (m as int) >= 1,
            ;
        }
        // order-needing operations see no NaN: integer and boolean values are
        // never NaN, and a Float work array is the unchanged Float input
        if axis_needs_order(op) {
            assert forall|i: int|
                0 <= i < work.elems().len() implies !value_is_nan(#[trigger] work.elems()[i]) by {
                assert(work.elems()[i] == crate::value::cast_spec(a.elems()[i], wt));
                if a.tp() != NDArrayType::Float {
                    lemma_buffer_typed(&work.data);
                } else {
                    lemma_buffer_typed(&a.data);
                    assert(vtype(a.elems()[i]) == NDArrayType::Float);
                }
            }
        }
        assert(0int * ((mm as int) * inner as int) == 0) by (nonlinear_arith);
    }
    let mut out = Buffer::empty(out_t);
    let mut o: usize = 0;
    while o < outer
        invariant
            0 <= o <= outer,
            axis_loop_inv(a, &work, axis as int, op, wt, m as int, mm as int, outer as int, inner as int),
            out.elem_type() == axis_out_type(op, wt),
            out.vals().len() == o as int * ((mm as int) * inner as int),
            total_out == outer as int * ((mm as int) * inner as int),
            total_out <= usize::MAX,
            axis_partial_ok(&work, op, wt, m as int, mm as int, inner as int, out.vals()),
        decreases outer - o,
    {
        let mut t: usize = 0;
        proof {
            assert((o as int * (mm as int) + 0) * inner as int == o as int * ((mm as int) * inner
                as int)) by (nonlinear_arith);
        }
        while t < mm
            invariant
                0 <= t <= mm,
                0 <= o < outer,
                axis_loop_inv(a, &work, axis as int, op, wt, m as int, mm as int, outer as int, inner as int),
                out.elem_type() == axis_out_type(op, wt),
                out.vals().len() == (o as int * (mm as int) + t) * inner as int,
                total_out == outer as int * ((mm as int) * inner as int),
                total_out <= usize::MAX,
                axis_partial_ok(&work, op, wt, m as int, mm as int, inner as int, out.vals()),
            decreases mm - t,
        {
            let mut ii: usize = 0;
            while ii < inner
                invariant
                    0 <= ii <= inner,
                    0 <= t < mm,
                    0 <= o < outer,
                    axis_loop_inv(a, &work, axis as int, op, wt, m as int, mm as int, outer as int, inner as int),
                    out.elem_type() == axis_out_type(op, wt),
                    out.vals().len() == (o as int * (mm as int) + t) * inner as int + ii,
                    total_out == outer as int * ((mm as int) * inner as int),
                    total_out <= usize::MAX,
                    axis_partial_ok(&work, op, wt, m as int, mm as int, inner as int, out.vals()),
                decreases inner - ii,
            {
                proof {
                    lemma_lane3(o as int, outer as int, mm as int, t as int, inner as int, ii as int);
                }
                let lane = lane_read(&work.data, m, inner, outer, o, ii);
                proof {
                    lemma_axis_lane_pre(
                        &work, op, wt, m as int, inner as int, outer as int, o as int, ii as int,
                    );
                }
                let outl = apply_lane(op, &lane, wt);
                let ghost prev = out.vals();
                out.push(outl[t]);
                proof {
                    lemma_axis_push(
                        &work, op, wt, m as int, mm as int, inner as int, prev, out.vals(),
                        o as int, t as int, ii as int,
                    );
                }
                ii += 1;
            }
            t += 1;
            proof {
                assert((o as int * (mm as int) + t) * inner as int == (o as int * (mm as int) + (t
                    - 1)) * inner as int + inner as int) by (nonlinear_arith);
            }
        }
        o += 1;
        proof {
            assert(o as int * ((mm as int) * inner as int) == ((o - 1) * (mm as int) + (mm as int))
                * inner as int) by (nonlinear_arith);
        }
    }
    let rr = NDArrayOwned { shape: out_shape, data: out };
    proof {
        assert(rr.elems().len() == crate::shape::prod(rr.shape@));
        assert forall|o2: int, t2: int, ii2: int|
            0 <= o2 < outer_g && 0 <= t2 < (mm as int) && 0 <= ii2 < inner_g implies #[trigger] rr.elems()[(
        o2 * (mm as int) + t2) * inner_g + ii2] == axis_lane_spec(
            op,
            lane_seq(wdata, m as int, inner_g, o2, ii2),
            wt,
        )[t2] by {
            lemma_lane3(o2, outer_g, mm as int, t2, inner_g, ii2);
        }
    }
    rr
}

/// The loop-stable facts of the axis driver.
pub open spec fn axis_loop_inv(
    a: &NDArrayOwned,
    work: &NDArrayOwned,
    axis: int,
    op: AxisOp,
    wt: NDArrayType,
    m: int,
    mm: int,
    outer: int,
    inner: int,
) -> bool {
    &&& a.wf()
    &&& work.wf()
    &&& 0 <= axis < a.shape@.len()
    &&& wt == axis_work_type(op, a.tp())
    &&& work.tp() == wt
    &&& work.elems() == a.elems().map_values(|v: Value| crate::value::cast_spec(v, wt))
    &&& m == a.shape@[axis] as int
    &&& mm == axis_out_m(op, m)
    &&& outer == crate::shape::prod(a.shape@.take(axis))
    &&& inner == crate::shape::sufprod(a.shape@, axis + 1)
    &&& outer * (m * inner) == work.elems().len()
    &&& m < usize::MAX
    &&& m <= i64::MAX
    &&& mm >= 0
    &&& axis_needs_nonempty(op) ==> m >= 1
    &&& axis_needs_order(op) ==> lane_no_nan(work.elems())
    &&& op != AxisOp::Sort ==> wt != NDArrayType::Bool
    &&& op == AxisOp::Var ==> wt == NDArrayType::Float
}

/// Every already-written output position holds its lane value.
pub open spec fn axis_partial_ok(
    work: &NDArrayOwned,
    op: AxisOp,
    wt: NDArrayType,
    m: int,
    mm: int,
    inner: int,
    out: Seq<Value>,
) -> bool {
    forall|o2: int, t2: int, ii2: int|
        0 <= o2 && 0 <= t2 < mm && 0 <= ii2 < inner && (o2 * mm + t2) * inner + ii2 < out.len()
            ==> #[trigger] out[(o2 * mm + t2) * inner + ii2] == axis_lane_spec(
            op,
            lane_seq(work.elems(), m, inner, o2, ii2),
            wt,
        )[t2]
}

/// The lane read in the driver meets apply_lane's demands.
proof fn lemma_axis_lane_pre(
    work: &NDArrayOwned,
    op: AxisOp,
    wt: NDArrayType,
    m: int,
    inner: int,
    outer: int,
    o: int,
    ii: int,
)
    requires
        work.wf(),
        work.tp() == wt,
        0 <= ii < inner,
        0 <= o < outer,
        m >= 0,
        outer * (m * inner) == work.elems().len(),
        axis_needs_order(op) ==> lane_no_nan(work.elems()),
    ensures
        axis_needs_order(op) ==> lane_no_nan(lane_seq(work.elems(), m, inner, o, ii)),
{
    let lane = lane_seq(work.elems(), m, inner, o, ii);
    if axis_needs_order(op) {
        assert forall|t: int| 0 <= t < lane.len() implies !value_is_nan(#[trigger] lane[t]) by {
            lemma_lane3(o, outer, m, t, inner, ii);
        }
    }
}

/// Pushing the next lane element extends the partial-correctness invariant.
proof fn lemma_axis_push(
    work: &NDArrayOwned,
    op: AxisOp,
    wt: NDArrayType,
    m: int,
    mm: int,
    inner: int,
    prev: Seq<Value>,
    cur: Seq<Value>,
    o: int,
    t: int,
    ii: int,
)
    requires
        axis_partial_ok(work, op, wt, m, mm, inner, prev),
        0 <= t < mm,
        0 <= ii < inner,
        0 <= o,
        prev.len() == (o * mm + t) * inner + ii,
        cur == prev.push(axis_lane_spec(op, lane_seq(work.elems(), m, inner, o, ii), wt)[t]),
    ensures
        axis_partial_ok(work, op, wt, m, mm, inner, cur),
{
    assert forall|o2: int, t2: int, ii2: int|
        0 <= o2 && 0 <= t2 < mm && 0 <= ii2 < inner && (o2 * mm + t2) * inner + ii2
            < cur.len() implies #[trigger] cur[(o2 * mm + t2) * inner + ii2] == axis_lane_spec(
        op,
        lane_seq(work.elems(), m, inner, o2, ii2),
        wt,
    )[t2] by {
        let idx = (o2 * mm + t2) * inner + ii2;
        vstd::arithmetic::mul::lemma_mul_nonnegative(o2, mm);
        vstd::arithmetic::mul::lemma_mul_nonnegative(o2 * mm + t2, inner);
        if idx < prev.len() {
            assert(prev[idx] == axis_lane_spec(
                op,
                lane_seq(work.elems(), m, inner, o2, ii2),
                wt,
            )[t2]);
        } else {
            lemma_lane3_unique(mm, inner, o2, t2, ii2, o, t, ii);
        }
    }
}

proof fn lemma_pos_factors(outer: int, mm: int, inner: int, total: int)
    requires
        total == outer * (mm * inner),
        total > 0,
        outer >= 0,
        inner >= 0,
        mm >= 0,
    ensures
        outer >= 1,
        inner >= 1,
        mm >= 1,
        outer <= total,
        inner <= total,
        mm <= total,
        mm * inner <= total,
{
    assert(outer >= 1 && inner >= 1 && mm >= 1 && outer <= total && inner <= total && mm <= total
        && mm * inner <= total) by (nonlinear_arith)
        requires
            total == outer * (mm * inner),
            total > 0,
            outer >= 0,
            inner >= 0,
            mm >= 0,
    ;
}

/// The position of lane element `(o, t, ii)` is inside the buffer.
pub proof fn lemma_lane3(o: int, outer: int, m: int, t: int, inner: int, ii: int)
    requires
        0 <= o < outer,
        0 <= t < m,
        0 <= ii < inner,
    ensures
        0 <= (o * m + t) * inner + ii < outer * (m * inner),
        0 <= o * m,
        o * m + t < outer * m,
        0 <= (o * m + t) * inner <= (o * m + t) * inner + ii,
        outer * m <= outer * (m * inner),
{
    assert((o * m + t) * inner + ii < outer * (m * inner) && 0 <= (o * m + t) * inner && 0 <= o * m
        && o * m + t < outer * m && outer * m <= outer * (m * inner)) by (nonlinear_arith)
        requires
            0 <= o < outer,
            0 <= t < m,
            0 <= ii < inner,
    ;
}

} // verus!
