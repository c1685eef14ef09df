use vstd::prelude::*;
use crate::error::RyndError;
use crate::owned::{Buffer, NDArrayOwned};
use crate::shape::{prod, sufprod, unrank};
use crate::value::{
    as_bool, binop_defined, binop_ok, binop_result_type, binop_spec, binop_val, cast_spec, vtype,
    BinOp, Value,
};
use crate::NDArrayType;

verus! {

// The elementwise operator engine over Owned arrays. Binary operators demand
// equal shapes (this engine broadcasts only true scalars); each output
// element follows the promotion table of the value algebra.

/// The elementwise meaning of a binary operator on two equal-length element
/// sequences.
pub open spec fn binop_seq(op: BinOp, a: Seq<Value>, b: Seq<Value>) -> Seq<Value> {
    Seq::new(a.len(), |i: int| binop_spec(op, a[i], b[i]))
}

/// No element pair hits a machine fault (integer division by zero or its one
/// overflow).
pub open spec fn binop_seq_defined(op: BinOp, a: Seq<Value>, b: Seq<Value>) -> bool {
    forall|i: int| 0 <= i < a.len() ==> binop_defined(op, #[trigger] a[i], b[i])
}

pub fn shapes_equal(a: &Vec<usize>, b: &Vec<usize>) -> (r: bool)
    ensures
        r <==> a@ =~= b@,
{
    if a.len() != b.len() {
        return false;
    }
    let n = a.len();
    let mut i: usize = 0;
    while i < n
        invariant
            0 <= i <= n,
            n == a@.len(),
            n == b@.len(),
            forall|k: int| 0 <= k < i ==> a@[k] == b@[k],
        decreases n - i,
    {
        if a[i] != b[i] {
            return false;
        }
        i += 1;
    }
    true
}

/// An elementwise binary operator on two same-shape arrays. Exactly the
/// boolean division/modulo combinations are type errors; a shape mismatch is
/// a shape error; otherwise every element is the promotion table applied to
/// the pair.
pub fn binop_arrays(op: BinOp, a: &NDArrayOwned, b: &NDArrayOwned) -> (r: Result<
    NDArrayOwned,
    RyndError,
>)
    requires
        a.wf(),
        b.wf(),
        a.shape@ =~= b.shape@ ==> binop_seq_defined(op, a.elems(), b.elems()),
    ensures
        !(a.shape@ =~= b.shape@) ==> r == Err::<NDArrayOwned, RyndError>(
            RyndError::IncompatibleShape,
        ),
        a.shape@ =~= b.shape@ && !binop_ok(op, a.tp(), b.tp()) ==> r == Err::<
            NDArrayOwned,
            RyndError,
        >(RyndError::IncompatibleType),
        a.shape@ =~= b.shape@ && binop_ok(op, a.tp(), b.tp()) ==> r is Ok && {
            let out = r.unwrap();
            &&& out.wf()
            &&& out.shape@ == a.shape@
            &&& out.tp() == binop_result_type(op, a.tp(), b.tp())
            &&& out.elems() =~= binop_seq(op, a.elems(), b.elems())
        },
{
    if !shapes_equal(&a.shape, &b.shape) {
        return Err(RyndError::IncompatibleShape);
    }
    let n = a.data.len();
    let ta = a.tp_exec();
    let tb = b.tp_exec();
    let rt = binop_result_type_exec(op, ta, tb);
    if (matches!(op, BinOp::Div) || matches!(op, BinOp::Modulo)) && ta == NDArrayType::Bool && tb
        == NDArrayType::Bool {
        return Err(RyndError::IncompatibleType);
    }
    let mut out = Buffer::empty(rt);
    let mut i: usize = 0;
    while i < n
        invariant
            0 <= i <= n,
            a.wf(),
            b.wf(),
            n == a.elems().len(),
            n == b.elems().len(),
            binop_seq_defined(op, a.elems(), b.elems()),
            binop_ok(op, a.tp(), b.tp()),
            rt == binop_result_type(op, a.tp(), b.tp()),
            out.elem_type() == rt,
            out.vals().len() == i,
            forall|k: int|
                0 <= k < i ==> out.vals()[k] == binop_spec(op, a.elems()[k], b.elems()[k]),
        decreases n - i,
    {
        let x = a.data.get(i);
        let y = b.data.get(i);
        let v = match binop_val(op, &x, &y) {
            Ok(v) => v,
            Err(_) => {
                proof {
                    assert(false);
                }
                crate::value::zero_of(rt)
            },
        };
        out.push(v);
        i += 1;
    }
    let shape = a.shape.clone();
    Ok(NDArrayOwned { shape, data: out })
}

fn binop_result_type_exec(op: BinOp, ta: NDArrayType, tb: NDArrayType) -> (t: NDArrayType)
    ensures
        t == binop_result_type(op, ta, tb),
{
    match op {
        BinOp::Eq | BinOp::Neq | BinOp::Lt | BinOp::Gt | BinOp::Leq | BinOp::Geq => {
            NDArrayType::Bool
        },
        _ => {
            if ta == NDArrayType::Float || tb == NDArrayType::Float {
                NDArrayType::Float
            } else if ta == NDArrayType::Int || tb == NDArrayType::Int {
                NDArrayType::Int
            } else {
                NDArrayType::Bool
            }
        },
    }
}

/// The elementwise meaning of a binary operator against a fixed scalar; the
/// `reverse` flag puts the scalar on the left.
pub open spec fn binop_scalar_seq(op: BinOp, a: Seq<Value>, scalar: Value, reverse: bool) -> Seq<
    Value,
> {
    Seq::new(
        a.len(),
        |i: int|
            if reverse {
                binop_spec(op, scalar, a[i])
            } else {
                binop_spec(op, a[i], scalar)
            },
    )
}

pub open spec fn binop_scalar_defined(
    op: BinOp,
    a: Seq<Value>,
    scalar: Value,
    reverse: bool,
) -> bool {
    forall|i: int|
        0 <= i < a.len() ==> (if reverse {
            binop_defined(op, scalar, #[trigger] a[i])
        } else {
            binop_defined(op, #[trigger] a[i], scalar)
        })
}

/// An elementwise binary operator between an array and a scalar.
pub fn binop_scalar(op: BinOp, a: &NDArrayOwned, scalar: Value, reverse: bool) -> (r: Result<
    NDArrayOwned,
    RyndError,
>)
    requires
        a.wf(),
        binop_scalar_defined(op, a.elems(), scalar, reverse),
    ensures
        !binop_ok(op, a.tp(), vtype(scalar)) ==> r == Err::<NDArrayOwned, RyndError>(
            RyndError::IncompatibleType,
        ),
        binop_ok(op, a.tp(), vtype(scalar)) ==> r is Ok && {
            let out = r.unwrap();
            &&& out.wf()
            &&& out.shape@ == a.shape@
            &&& out.tp() == binop_result_type(op, a.tp(), vtype(scalar))
            &&& out.elems() =~= binop_scalar_seq(op, a.elems(), scalar, reverse)
        },
{
    let n = a.data.len();
    let ta = a.tp_exec();
    let ts = crate::value::value_type(&scalar);
    let rt = binop_result_type_exec(op, ta, ts);
    if (matches!(op, BinOp::Div) || matches!(op, BinOp::Modulo)) && ta == NDArrayType::Bool && ts
        == NDArrayType::Bool {
        return Err(RyndError::IncompatibleType);
    }
    proof {
        assert(binop_ok(op, a.tp(), vtype(scalar)));
    }
    let mut out = Buffer::empty(rt);
    let mut i: usize = 0;
    while i < n
        invariant
            0 <= i <= n,
            a.wf(),
            n == a.elems().len(),
            binop_scalar_defined(op, a.elems(), scalar, reverse),
            binop_ok(op, a.tp(), vtype(scalar)),
            rt == binop_result_type(op, a.tp(), vtype(scalar)),
            out.elem_type() == rt,
            out.vals().len() == i,
            forall|k: int|
                0 <= k < i ==> out.vals()[k] == (if reverse {
                    binop_spec(op, scalar, a.elems()[k])
                } else {
                    binop_spec(op, a.elems()[k], scalar)
                }),
        decreases n - i,
    {
        let x = a.data.get(i);
        let res = if reverse {
            binop_val(op, &scalar, &x)
        } else {
            binop_val(op, &x, &scalar)
        };
        let v = match res {
            Ok(v) => v,
            Err(_) => {
                proof {
                    assert(false);
                }
                crate::value::zero_of(rt)
            },
        };
        out.push(v);
        i += 1;
    }
    let shape = a.shape.clone();
    Ok(NDArrayOwned { shape, data: out })
}

// --- boolean masking and integer gathering ---

/// The elements of `a` at the positions where `m` is true, in iteration
/// order.
pub open spec fn mask_filter(a: Seq<Value>, m: Seq<Value>) -> Seq<Value>
    decreases a.len(),
{
    if a.len() == 0 {
        Seq::empty()
    } else {
        mask_filter(a.drop_last(), m.drop_last()) + (if m.last() == Value::Bool(true) {
            seq![a.last()]
        } else {
            Seq::empty()
        })
    }
}

/// Boolean-mask compaction: a 1-D array of the elements selected by a
/// same-shape Bool mask.
pub fn mask_index(a: &NDArrayOwned, m: &NDArrayOwned) -> (r: Result<NDArrayOwned, RyndError>)
    requires
        a.wf(),
        m.wf(),
        m.tp() == NDArrayType::Bool,
    ensures
        !(a.shape@ =~= m.shape@) ==> r == Err::<NDArrayOwned, RyndError>(RyndError::InvalidIndex),
        a.shape@ =~= m.shape@ ==> r is Ok && {
            let out = r.unwrap();
            &&& out.wf()
            &&& out.tp() == a.tp()
            &&& out.shape@.len() == 1
            &&& out.elems() =~= mask_filter(a.elems(), m.elems())
            &&& out.shape@[0] == mask_filter(a.elems(), m.elems()).len()
        },
{
    if !shapes_equal(&a.shape, &m.shape) {
        return Err(RyndError::InvalidIndex);
    }
    let n = a.data.len();
    let t = a.tp_exec();
    let mut out = Buffer::empty(t);
    let mut i: usize = 0;
    while i < n
        invariant
            0 <= i <= n,
            a.wf(),
            m.wf(),
            n == a.elems().len(),
            n == m.elems().len(),
            m.tp() == NDArrayType::Bool,
            out.elem_type() == a.tp(),
            out.vals().len() <= i,
            out.vals() =~= mask_filter(a.elems().take(i as int), m.elems().take(i as int)),
        decreases n - i,
    {
        let keep = match m.data.get(i) {
            Value::Bool(b) => b,
            _ => {
                proof {
                    assert(false);
                }
                false
            },
        };
        proof {
            assert(a.elems().take(i + 1).drop_last() =~= a.elems().take(i as int));
            assert(m.elems().take(i + 1).drop_last() =~= m.elems().take(i as int));
            assert(a.elems().take(i + 1).last() == a.elems()[i as int]);
        }
        if keep {
            let v = a.data.get(i);
            out.push(v);
        }
        i += 1;
    }
    proof {
        assert(a.elems().take(n as int) =~= a.elems());
        assert(m.elems().take(n as int) =~= m.elems());
    }
    let count = out.len();
    let mut shape: Vec<usize> = Vec::new();
    shape.push(count);
    let arr = NDArrayOwned { shape, data: out };
    proof {
        crate::shape::lemma_prod_single(arr.shape@);
    }
    Ok(arr)
}

/// Negative indices wrap around the dimension once per multiple, as repeated
/// addition of the dimension does; in-range results index the axis.
pub open spec fn wrap_index(i: int, d: int) -> int {
    if i >= 0 {
        i
    } else {
        i % d
    }
}

/// Resolves one signed index against a dimension: negative values wrap,
/// anything that lands outside the axis is an index error.
pub fn resolve_index(i: i64, d: usize) -> (r: Result<usize, RyndError>)
    ensures
        d > 0 && 0 <= wrap_index(i as int, d as int) < d ==> r == Ok::<usize, RyndError>(
            wrap_index(i as int, d as int) as usize,
        ),
        !(d > 0 && 0 <= wrap_index(i as int, d as int) < d) ==> r == Err::<usize, RyndError>(
            RyndError::InvalidIndex,
        ),
{
    if d == 0 {
        return Err(RyndError::InvalidIndex);
    }
    if i >= 0 {
        if (i as u64) < (d as u64) {
            Ok(i as usize)
        } else {
            Err(RyndError::InvalidIndex)
        }
    } else {
        // the machine remainder has the dividend's sign; add the divisor to
        // land in [0, d)
        let di = d as i128;
        let m = (i as i128).checked_rem(di).unwrap();
        let w: i128 = if m < 0 {
            m + di
        } else {
            m
        };
        proof {
            lemma_trunc_rem_to_euclid(i as int, d as int, m as int);
            assert(w == (i as int) % (d as int));
            assert(w == wrap_index(i as int, d as int));
            assert(0 <= wrap_index(i as int, d as int) < d);
        }
        Ok(w as usize)
    }
}

/// For a negative dividend and positive divisor, the machine remainder plus
/// the divisor (when the remainder is negative) is the Euclidean remainder.
proof fn lemma_trunc_rem_to_euclid(x: int, d: int, m: int)
    requires
        x < 0,
        d > 0,
        m == crate::value::trunc_rem(x, d),
    ensures
        (if m < 0 {
            m + d
        } else {
            m
        }) == x % d,
        0 <= x % d < d,
{
    vstd::arithmetic::div_mod::lemma_mod_division_less_than_divisor(x, d);
    // trunc_rem(x, d) for x < 0 is -((-x) % d)
    let e = x % d;
    vstd::arithmetic::div_mod::lemma_fundamental_div_mod(x, d);
    vstd::arithmetic::div_mod::lemma_fundamental_div_mod(-x, d);
    vstd::arithmetic::div_mod::lemma_mod_division_less_than_divisor(-x, d);
    if (-x) % d == 0 {
        assert(x == (-((-x) / d)) * d + 0) by (nonlinear_arith)
            requires
                -x == d * ((-x) / d),
        ;
        vstd::arithmetic::div_mod::lemma_fundamental_div_mod_converse_mod(x, d, -((-x) / d), 0);
    } else {
        assert(x == (-((-x) / d) - 1) * d + (d - (-x) % d)) by (nonlinear_arith)
            requires
                -x == d * ((-x) / d) + (-x) % d,
        ;
        vstd::arithmetic::div_mod::lemma_fundamental_div_mod_converse_mod(
            x,
            d,
            -((-x) / d) - 1,
            d - (-x) % d,
        );
    }
}

// --- stacking and concatenation ---

/// The flat element of two arrays interleaved block by block: blocks of
/// `ba` elements from `a` alternate with blocks of `bb` elements from `b`.
pub open spec fn interleave_val(a: Seq<Value>, b: Seq<Value>, ba: int, bb: int, j: int) -> Value {
    let o = j / (ba + bb);
    let t = j % (ba + bb);
    if t < ba {
        a[o * ba + t]
    } else {
        b[o * bb + (t - ba)]
    }
}

/// Builds the buffer holding `outer` rounds of one `ba`-element block of `a`
/// then one `bb`-element block of `b`.
fn interleave_blocks(
    a: &NDArrayOwned,
    b: &NDArrayOwned,
    outer: usize,
    block_a: usize,
    block_b: usize,
) -> (out: Buffer)
    requires
        a.wf(),
        b.wf(),
        a.tp() == b.tp(),
        outer as int * block_a as int == a.elems().len(),
        outer as int * block_b as int == b.elems().len(),
        block_a + block_b <= usize::MAX,
        outer as int * (block_a + block_b) as int <= usize::MAX,
        block_a + block_b > 0,
    ensures
        out.elem_type() == a.tp(),
        out.vals().len() == outer as int * (block_a + block_b) as int,
        forall|j: int|
            0 <= j < out.vals().len() ==> #[trigger] out.vals()[j] == interleave_val(
                a.elems(),
                b.elems(),
                block_a as int,
                block_b as int,
                j,
            ),
{
    let t = a.tp_exec();
    let mut out = Buffer::empty(t);
    let block = block_a + block_b;
    proof {
        vstd::arithmetic::mul::lemma_mul_nonnegative(outer as int, block as int);
    }
    let total = outer * block;
    proof {
        assert(outer as int * block_a as int <= outer as int * (block_a + block_b) as int && outer
            as int * block_b as int <= outer as int * (block_a + block_b) as int)
            by (nonlinear_arith)
            requires
                block_a >= 0,
                block_b >= 0,
                outer >= 0,
        ;
    }
    let mut j: usize = 0;
    while j < total
        invariant
            0 <= j <= total,
            a.wf(),
            b.wf(),
            a.tp() == t,
            b.tp() == t,
            block == block_a + block_b,
            block > 0,
            total == outer as int * block as int,
            total <= usize::MAX,
            outer as int * block_a as int == a.elems().len(),
            outer as int * block_b as int == b.elems().len(),
            a.elems().len() <= total,
            b.elems().len() <= total,
            out.elem_type() == t,
            out.vals().len() == j,
            forall|j2: int|
                0 <= j2 < j ==> #[trigger] out.vals()[j2] == interleave_val(
                    a.elems(),
                    b.elems(),
                    block_a as int,
                    block_b as int,
                    j2,
                ),
        decreases total - j,
    {
        let o = j / block;
        let tt = j % block;
        proof {
            vstd::arithmetic::div_mod::lemma_fundamental_div_mod(j as int, block as int);
            vstd::arithmetic::div_mod::lemma_mod_division_less_than_divisor(j as int, block as int);
            vstd::arithmetic::div_mod::lemma_div_pos_is_pos(j as int, block as int);
            assert((j as int) / (block as int) < outer) by {
                if (j as int) / (block as int) >= outer {
                    vstd::arithmetic::mul::lemma_mul_inequality(
                        outer as int,
                        (j as int) / (block as int),
                        block as int,
                    );
                    vstd::arithmetic::mul::lemma_mul_is_commutative(
                        (j as int) / (block as int),
                        block as int,
                    );
                }
            }
        }
        let v = if tt < block_a {
            proof {
                lemma_lane_elem(o as int, outer as int, block_a as int, tt as int);
            }
            a.data.get(o * block_a + tt)
        } else {
            proof {
                lemma_lane_elem(o as int, outer as int, block_b as int, tt as int - block_a as int);
            }
            b.data.get(o * block_b + (tt - block_a))
        };
        out.push(v);
        j += 1;
    }
    out
}

/// Equal shapes on every axis but the joined one.
pub open spec fn concat_shapes_ok(a: Seq<usize>, b: Seq<usize>, axis: int) -> bool {
    forall|i: int| 0 <= i < a.len() && i != axis ==> a[i] == b[i]
}

/// The element count of the concatenation result.
pub open spec fn concat_count(a: Seq<usize>, b: Seq<usize>, axis: int) -> int {
    prod(a.take(axis)) * ((a[axis] + b[axis]) * sufprod(a, axis + 1))
}

/// Joins two same-type arrays along an existing axis; every other axis must
/// match. The result's lanes alternate: one block of `a`, one block of `b`,
/// for each index of the outer axes.
pub fn concat_axis(a: &NDArrayOwned, b: &NDArrayOwned, axis: usize) -> (r: Result<
    NDArrayOwned,
    RyndError,
>)
    requires
        a.wf(),
        b.wf(),
        (axis as int) < a.shape@.len(),
        a.shape@.len() == b.shape@.len(),
        a.shape@[axis as int] + b.shape@[axis as int] <= usize::MAX,
        concat_count(a.shape@, b.shape@, axis as int) <= i64::MAX,
        concat_count(a.shape@, b.shape@, axis as int) <= usize::MAX,
    ensures
        a.tp() != b.tp() ==> r == Err::<NDArrayOwned, RyndError>(RyndError::IncompatibleType),
        a.tp() == b.tp() && !concat_shapes_ok(a.shape@, b.shape@, axis as int) ==> r == Err::<
            NDArrayOwned,
            RyndError,
        >(RyndError::IncompatibleShape),
        a.tp() == b.tp() && concat_shapes_ok(a.shape@, b.shape@, axis as int) ==> r is Ok && {
            let out = r.unwrap();
            let block_a = prod(a.shape@.skip(axis as int));
            let block_b = prod(b.shape@.skip(axis as int));
            &&& out.wf()
            &&& out.tp() == a.tp()
            &&& out.shape@ =~= a.shape@.update(
                axis as int,
                (a.shape@[axis as int] + b.shape@[axis as int]) as usize,
            )
            &&& out.elems().len() == a.elems().len() + b.elems().len()
            &&& forall|j: int|
                0 <= j < out.elems().len() ==> #[trigger] out.elems()[j] == interleave_val(
                    a.elems(),
                    b.elems(),
                    block_a,
                    block_b,
                    j,
                )
        },
{
    let ta = a.tp_exec();
    let tb = b.tp_exec();
    if ta != tb {
        return Err(RyndError::IncompatibleType);
    }
    let ndim = a.shape.len();
    let mut k: usize = 0;
    while k < ndim
        invariant
            0 <= k <= ndim,
            ndim == a.shape@.len(),
            ndim == b.shape@.len(),
            a.tp() == b.tp(),
            forall|i: int| 0 <= i < k && i != axis ==> a.shape@[i] == b.shape@[i],
        decreases ndim - k,
    {
        if k != axis && a.shape[k] != b.shape[k] {
            proof {
                assert(!concat_shapes_ok(a.shape@, b.shape@, axis as int)) by {
                    assert(a.shape@[k as int] != b.shape@[k as int]);
                }
            }
            return Err(RyndError::IncompatibleShape);
        }
        k += 1;
    }
    let ghost sa = a.shape@[axis as int] as int;
    let ghost sb = b.shape@[axis as int] as int;
    let mut shape = a.shape.clone();
    let joined = a.shape[axis] + b.shape[axis];
    shape.set(axis, joined);
    proof {
        lemma_concat_result_shape(a.shape@, b.shape@, axis as int, shape@);
        lemma_concat_split(a.shape@, b.shape@, axis as int);
    }
    let total = crate::shape::prod_exec(&shape);
    if total == 0 {
        // one of the outer or inner axes is zero, or both joined axes are:
        // there is nothing to copy
        let out = Buffer::empty(ta);
        let arr = NDArrayOwned { shape, data: out };
        proof {
            lemma_empty_concat(a.shape@, b.shape@, axis as int, arr.shape@);
        }
        return Ok(arr);
    }
    proof {
        lemma_concat_factors(a.shape@, b.shape@, axis as int, shape@);
    }
    let (outer, inner) = split_products(&shape, axis);
    proof {
        lemma_concat_blocks(a.shape@, b.shape@, axis as int, shape@, outer as int, inner as int);
        assert(a.shape@[axis as int] as int * inner as int <= usize::MAX);
        assert(b.shape@[axis as int] as int * inner as int <= usize::MAX);
    }
    let block_a = a.shape[axis].checked_mul(inner).unwrap();
    let block_b = b.shape[axis].checked_mul(inner).unwrap();
    proof {
        assert(block_a as int + block_b as int <= usize::MAX);
        assert(block_a as int + block_b as int > 0);
    }
    let out = interleave_blocks(a, b, outer, block_a, block_b);
    let arr = NDArrayOwned { shape, data: out };
    Ok(arr)
}

/// The concatenation count distributes into the two source counts.
proof fn lemma_concat_split(a: Seq<usize>, b: Seq<usize>, axis: int)
    requires
        0 <= axis < a.len(),
        a.len() == b.len(),
        forall|i: int| 0 <= i < a.len() && i != axis ==> a[i] == b[i],
    ensures
        concat_count(a, b, axis) == prod(a) + prod(b),
        prod(a.skip(axis)) == a[axis] * sufprod(a, axis + 1),
        prod(b.skip(axis)) == b[axis] * sufprod(a, axis + 1),
    decreases 0int,
{
    lemma_prod_split(a, axis);
    lemma_prod_split(b, axis);
    assert(a.take(axis) =~= b.take(axis));
    lemma_sufprod_eq_from(a, b, axis + 1);
    lemma_skip_is_sufprod(a, axis);
    lemma_skip_is_sufprod(b, axis);
    let pre = prod(a.take(axis));
    let inner = sufprod(a, axis + 1);
    assert(sufprod(a, axis) == a[axis] * inner);
    assert(sufprod(b, axis) == b[axis] * inner);
    assert(pre * ((a[axis] + b[axis]) * inner) == pre * (a[axis] as int * inner) + pre * (
    b[axis] as int * inner)) by (nonlinear_arith);
}

pub proof fn lemma_concat_result_shape(a: Seq<usize>, b: Seq<usize>, axis: int, r: Seq<usize>)
    requires
        0 <= axis < a.len(),
        a.len() == b.len(),
        a[axis] + b[axis] <= usize::MAX,
        r =~= a.update(axis, (a[axis] + b[axis]) as usize),
    ensures
        prod(r) == concat_count(a, b, axis),
{
    lemma_prod_split(r, axis);
    assert(r.take(axis) =~= a.take(axis));
    lemma_sufprod_eq_from(r, a, axis + 1);
}

proof fn lemma_empty_concat(a: Seq<usize>, b: Seq<usize>, axis: int, r: Seq<usize>)
    requires
        0 <= axis < a.len(),
        a.len() == b.len(),
        forall|i: int| 0 <= i < a.len() && i != axis ==> a[i] == b[i],
        a[axis] + b[axis] <= usize::MAX,
        r =~= a.update(axis, (a[axis] + b[axis]) as usize),
        prod(r) == 0,
    ensures
        prod(a) == 0,
        prod(b) == 0,
{
    lemma_concat_result_shape(a, b, axis, r);
    lemma_concat_split(a, b, axis);
    crate::shape::lemma_sufprod_nonneg(a, 0);
    crate::shape::lemma_sufprod_nonneg(b, 0);
}

/// A positive concatenation count makes the outer and inner factors positive
/// and small enough to compute.
proof fn lemma_concat_factors(a: Seq<usize>, b: Seq<usize>, axis: int, r: Seq<usize>)
    requires
        0 <= axis < a.len(),
        a.len() == b.len(),
        forall|i: int| 0 <= i < a.len() && i != axis ==> a[i] == b[i],
        a[axis] + b[axis] <= usize::MAX,
        r =~= a.update(axis, (a[axis] + b[axis]) as usize),
        prod(r) > 0,
        prod(r) <= usize::MAX,
    ensures
        prod(r.take(axis)) > 0,
        sufprod(r, axis + 1) > 0,
        prod(r.take(axis)) <= usize::MAX,
        sufprod(r, axis + 1) <= usize::MAX,
        prod(r.take(axis)) == prod(a.take(axis)),
        sufprod(r, axis + 1) == sufprod(a, axis + 1),
{
    crate::shape::lemma_sufprod_pos(r, axis + 1);
    crate::shape::lemma_sufprod_le(r, axis + 1, r.len() as int);
    lemma_take_prod_bound(r, axis);
    lemma_prod_split(r, axis);
    assert(r.take(axis) =~= a.take(axis));
    lemma_sufprod_eq_from(r, a, axis + 1);
    let pre = prod(r.take(axis));
    let inner = sufprod(r, axis + 1);
    let mid = r[axis] as int;
    assert(inner <= pre * (mid * inner)) by (nonlinear_arith)
        requires
            pre >= 1,
            mid >= 1,
            inner >= 1,
    ;
    crate::shape::lemma_sufprod_pos(r, 0);
}

/// The two blocks fit and tile the source and result buffers exactly.
proof fn lemma_concat_blocks(
    a: Seq<usize>,
    b: Seq<usize>,
    axis: int,
    r: Seq<usize>,
    outer: int,
    inner: int,
)
    requires
        0 <= axis < a.len(),
        a.len() == b.len(),
        forall|i: int| 0 <= i < a.len() && i != axis ==> a[i] == b[i],
        a[axis] + b[axis] <= usize::MAX,
        r =~= a.update(axis, (a[axis] + b[axis]) as usize),
        prod(r) > 0,
        prod(r) <= usize::MAX,
        outer == prod(r.take(axis)),
        inner == sufprod(r, axis + 1),
    ensures
        a[axis] * inner <= usize::MAX,
        b[axis] * inner <= usize::MAX,
        outer * (a[axis] * inner) == prod(a),
        outer * (b[axis] * inner) == prod(b),
        a[axis] * inner + b[axis] * inner == (a[axis] + b[axis]) * inner,
        outer * ((a[axis] + b[axis]) as int * inner) == prod(r),
        a[axis] * inner == prod(a.skip(axis)),
        b[axis] * inner == prod(b.skip(axis)),
        (a[axis] + b[axis]) as int * inner <= usize::MAX,
        (a[axis] + b[axis]) as int * inner > 0,
{
    lemma_concat_factors(a, b, axis, r);
    lemma_prod_split(r, axis);
    lemma_prod_split(a, axis);
    lemma_prod_split(b, axis);
    assert(r.take(axis) =~= a.take(axis));
    assert(a.take(axis) =~= b.take(axis));
    lemma_sufprod_eq_from(r, a, axis + 1);
    lemma_sufprod_eq_from(a, b, axis + 1);
    lemma_skip_is_sufprod(a, axis);
    lemma_skip_is_sufprod(b, axis);
    let pre = prod(r.take(axis));
    let sa = a[axis] as int;
    let sb = b[axis] as int;
    assert(sa * inner <= (sa + sb) * inner && sb * inner <= (sa + sb) * inner && (sa + sb) * inner
        <= pre * ((sa + sb) * inner) && sa * inner + sb * inner == (sa + sb) * inner)
        by (nonlinear_arith)
        requires
            pre >= 1,
            inner >= 1,
            sa >= 0,
            sb >= 0,
    ;
    assert((sa + sb) * inner > 0) by (nonlinear_arith)
        requires
            pre >= 1,
            inner >= 1,
            pre * ((sa + sb) * inner) > 0,
    ;
}

/// Computes `(prod(shape[..axis]), sufprod(shape, axis + 1))`.
pub fn split_products(shape: &Vec<usize>, axis: usize) -> (r: (usize, usize))
    requires
        (axis as int) < shape@.len(),
        shape@.len() <= usize::MAX,
        prod(shape@.take(axis as int)) > 0,
        prod(shape@.take(axis as int)) <= usize::MAX,
        sufprod(shape@, axis as int + 1) > 0,
        sufprod(shape@, axis as int + 1) <= usize::MAX,
    ensures
        r.0 == prod(shape@.take(axis as int)),
        r.1 == sufprod(shape@, axis as int + 1),
{
    let mut pre: Vec<usize> = Vec::new();
    let mut k: usize = 0;
    while k < axis
        invariant
            0 <= k <= axis,
            (axis as int) < shape@.len(),
            pre@.len() == k,
            forall|i: int| 0 <= i < k ==> pre@[i] == shape@[i],
        decreases axis - k,
    {
        pre.push(shape[k]);
        k += 1;
    }
    proof {
        assert(pre@ =~= shape@.take(axis as int));
    }
    let outer = crate::shape::prod_exec(&pre);
    let ndim = shape.len();
    let mut post: Vec<usize> = Vec::new();
    let mut k2: usize = axis + 1;
    while k2 < ndim
        invariant
            axis + 1 <= k2 <= ndim,
            ndim == shape@.len(),
            post@.len() == k2 - axis - 1,
            forall|i: int| 0 <= i < k2 - axis - 1 ==> post@[i] == shape@[axis + 1 + i],
        decreases ndim - k2,
    {
        post.push(shape[k2]);
        k2 += 1;
    }
    proof {
        assert(post@ =~= shape@.skip(axis as int + 1));
        lemma_skip_is_sufprod(shape@, axis as int + 1);
    }
    let inner = crate::shape::prod_exec(&post);
    (outer, inner)
}

/// `prod(s) == prod(s.take(k)) * sufprod(s, k)`.
pub proof fn lemma_prod_split(s: Seq<usize>, k: int)
    requires
        0 <= k <= s.len(),
    ensures
        prod(s) == prod(s.take(k)) * sufprod(s, k),
    decreases k,
{
    if k == 0 {
        assert(s.take(0) =~= Seq::<usize>::empty());
        assert(1int * sufprod(s, 0) == sufprod(s, 0)) by (nonlinear_arith);
    } else {
        lemma_prod_split(s, k - 1);
        lemma_prod_push(s.take(k - 1), s[k - 1]);
        assert(s.take(k) =~= s.take(k - 1).push(s[k - 1]));
        let skm = s[k - 1] as int;
        assert(prod(s.take(k - 1)) * (skm * sufprod(s, k)) == (prod(s.take(k - 1)) * skm) * sufprod(
            s,
            k,
        )) by (nonlinear_arith);
    }
}

/// `prod(t.push(x)) == prod(t) * x`.
pub proof fn lemma_prod_push(t: Seq<usize>, x: usize)
    ensures
        prod(t.push(x)) == prod(t) * x,
    decreases t.len(),
{
    if t.len() == 0 {
        assert(t.push(x) =~= seq![x]);
        crate::shape::lemma_prod_single(seq![x]);
        assert(1int * x as int == x as int) by (nonlinear_arith);
    } else {
        let u = t.skip(1);
        lemma_prod_push(u, x);
        assert(t.push(x).skip(1) =~= u.push(x));
        lemma_prodsuf_step_pub(t, u);
        lemma_prodsuf_step_pub(t.push(x), u.push(x));
        assert(t[0] as int * (prod(u) * x as int) == (t[0] as int * prod(u)) * x as int)
            by (nonlinear_arith);
    }
}

/// `prod(s) == s[0] * prod(s.skip(1))` for nonempty `s`.
pub proof fn lemma_prodsuf_step_pub(a: Seq<usize>, b: Seq<usize>)
    requires
        a.len() > 0,
        b =~= a.skip(1),
    ensures
        prod(a) == a[0] * prod(b),
{
    crate::shape::lemma_prod_remove(a, 0);
    assert(a.remove(0) =~= a.skip(1));
}

/// `prod(s.skip(k)) == sufprod(s, k)`.
pub proof fn lemma_skip_is_sufprod(s: Seq<usize>, k: int)
    requires
        0 <= k <= s.len(),
    ensures
        prod(s.skip(k)) == sufprod(s, k),
    decreases s.len() - k,
{
    if k < s.len() {
        lemma_skip_is_sufprod(s, k + 1);
        lemma_prodsuf_step_pub(s.skip(k), s.skip(k + 1));
        assert(s.skip(k).skip(1) =~= s.skip(k + 1));
    } else {
        assert(s.skip(k) =~= Seq::<usize>::empty());
    }
}

proof fn lemma_take_prod_bound(s: Seq<usize>, k: int)
    requires
        0 <= k <= s.len(),
        prod(s) > 0,
        prod(s) <= usize::MAX,
    ensures
        0 < prod(s.take(k)) <= prod(s),
        prod(s.take(k)) <= usize::MAX,
{
    lemma_prod_split(s, k);
    crate::shape::lemma_sufprod_pos(s, k);
    crate::shape::lemma_sufprod_nonneg(s, k);
    let p = prod(s.take(k));
    let q = sufprod(s, k);
    assert(p > 0) by (nonlinear_arith)
        requires
            p * q > 0,
            q > 0,
    ;
    assert(p <= p * q) by (nonlinear_arith)
        requires
            p > 0,
            q >= 1,
    ;
}

proof fn lemma_sufprod_eq_from(a: Seq<usize>, b: Seq<usize>, k: int)
    requires
        a.len() == b.len(),
        forall|i: int| k <= i < a.len() ==> a[i] == b[i],
    ensures
        sufprod(a, k) == sufprod(b, k),
    decreases a.len() - k,
{
    if 0 <= k < a.len() {
        lemma_sufprod_eq_from(a, b, k + 1);
    }
}

proof fn lemma_lane_elem(o: int, outer: int, block: int, t: int)
    requires
        0 <= o < outer,
        0 <= t < block,
    ensures
        0 <= o * block + t < outer * block,
{
    assert((o + 1) * block <= outer * block && (o + 1) * block == o * block + block)
        by (nonlinear_arith)
        requires
            0 <= o < outer,
            0 <= block,
    ;
    vstd::arithmetic::mul::lemma_mul_nonnegative(o, block);
}

/// Stacks two identically shaped same-type arrays along a new axis of size
/// two inserted at `axis`.
pub fn stack_axis(a: &NDArrayOwned, b: &NDArrayOwned, axis: usize) -> (r: Result<
    NDArrayOwned,
    RyndError,
>)
    requires
        a.wf(),
        b.wf(),
        axis as int <= a.shape@.len(),
        a.shape@.len() < usize::MAX,
        2 * prod(a.shape@) <= i64::MAX,
        2 * prod(a.shape@) <= usize::MAX,
    ensures
        a.tp() != b.tp() ==> r == Err::<NDArrayOwned, RyndError>(RyndError::IncompatibleType),
        a.tp() == b.tp() && !(a.shape@ =~= b.shape@) ==> r == Err::<NDArrayOwned, RyndError>(
            RyndError::IncompatibleShape,
        ),
        a.tp() == b.tp() && a.shape@ =~= b.shape@ ==> r is Ok && {
            let out = r.unwrap();
            let inner = sufprod(a.shape@, axis as int);
            &&& out.wf()
            &&& out.tp() == a.tp()
            &&& out.shape@ =~= a.shape@.take(axis as int) + seq![2usize] + a.shape@.skip(
                axis as int,
            )
            &&& out.elems().len() == 2 * a.elems().len()
            &&& forall|j: int|
                0 <= j < out.elems().len() ==> #[trigger] out.elems()[j] == interleave_val(
                    a.elems(),
                    b.elems(),
                    inner,
                    inner,
                    j,
                )
        },
{
    let ta = a.tp_exec();
    let tb = b.tp_exec();
    if ta != tb {
        return Err(RyndError::IncompatibleType);
    }
    if !shapes_equal(&a.shape, &b.shape) {
        return Err(RyndError::IncompatibleShape);
    }
    let ndim = a.shape.len();
    // build the result shape with the new axis of size 2
    let mut shape: Vec<usize> = Vec::new();
    let mut k: usize = 0;
    while k < axis
        invariant
            0 <= k <= axis,
            axis <= ndim,
            ndim == a.shape@.len(),
            shape@.len() == k,
            forall|i: int| 0 <= i < k ==> shape@[i] == a.shape@[i],
        decreases axis - k,
    {
        shape.push(a.shape[k]);
        k += 1;
    }
    shape.push(2);
    let mut k2: usize = axis;
    while k2 < ndim
        invariant
            axis <= k2 <= ndim,
            ndim == a.shape@.len(),
            shape@.len() == k2 + 1,
            forall|i: int| 0 <= i < axis ==> shape@[i] == a.shape@[i],
            shape@[axis as int] == 2,
            forall|i: int| axis < i <= k2 ==> shape@[i] == a.shape@[i - 1],
        decreases ndim - k2,
    {
        shape.push(a.shape[k2]);
        k2 += 1;
    }
    proof {
        assert(shape@ =~= a.shape@.take(axis as int) + seq![2usize] + a.shape@.skip(axis as int));
        lemma_stack_shape(a.shape@, axis as int, shape@);
    }
    let total = crate::shape::prod_exec(&shape);
    if total == 0 {
        let out = Buffer::empty(ta);
        let arr = NDArrayOwned { shape, data: out };
        proof {
            crate::shape::lemma_sufprod_nonneg(a.shape@, axis as int);
            lemma_prod_split(a.shape@, axis as int);
            assert(prod(a.shape@) == 0) by (nonlinear_arith)
                requires
                    2 * (prod(a.shape@.take(axis as int)) * sufprod(a.shape@, axis as int)) == 0,
                    prod(a.shape@) == prod(a.shape@.take(axis as int)) * sufprod(
                        a.shape@,
                        axis as int,
                    ),
            ;
        }
        return Ok(arr);
    }
    proof {
        lemma_stack_factors(a.shape@, axis as int, shape@);
    }
    let (outer, inner) = split_products(&shape, axis);
    let out = interleave_blocks(a, b, outer, inner, inner);
    let arr = NDArrayOwned { shape, data: out };
    proof {
        lemma_prod_split(shape@, axis as int);
        assert(arr.elems().len() == prod(shape@)) by (nonlinear_arith)
            requires
                arr.elems().len() == prod(shape@.take(axis as int)) * ((2int) * sufprod(
                    shape@,
                    axis as int + 1,
                )),
                prod(shape@) == prod(shape@.take(axis as int)) * sufprod(shape@, axis as int),
                sufprod(shape@, axis as int) == 2 * sufprod(shape@, axis as int + 1),
        ;
    }
    Ok(arr)
}

/// The stacked shape doubles the element count and keeps the inner suffix.
proof fn lemma_stack_shape(s: Seq<usize>, axis: int, r: Seq<usize>)
    requires
        0 <= axis <= s.len(),
        r =~= s.take(axis) + seq![2usize] + s.skip(axis),
    ensures
        prod(r) == 2 * prod(s),
        r.take(axis) =~= s.take(axis),
        sufprod(r, axis + 1) == sufprod(s, axis),
        sufprod(r, axis) == 2 * sufprod(s, axis),
    decreases 0int,
{
    assert(r.take(axis) =~= s.take(axis));
    assert(r.skip(axis + 1) =~= s.skip(axis));
    lemma_skip_is_sufprod(r, axis + 1);
    lemma_skip_is_sufprod(s, axis);
    lemma_prod_split(r, axis);
    lemma_prod_split(s, axis);
    assert(sufprod(r, axis) == r[axis] * sufprod(r, axis + 1));
    let pre = prod(s.take(axis));
    let suf = sufprod(s, axis);
    assert(pre * ((2int) * suf) == 2 * (pre * suf)) by (nonlinear_arith);
}

proof fn lemma_stack_factors(s: Seq<usize>, axis: int, r: Seq<usize>)
    requires
        0 <= axis <= s.len(),
        r =~= s.take(axis) + seq![2usize] + s.skip(axis),
        prod(r) > 0,
        prod(r) <= usize::MAX,
    ensures
        prod(r.take(axis)) > 0,
        prod(r.take(axis)) <= usize::MAX,
        sufprod(r, axis + 1) > 0,
        sufprod(r, axis + 1) <= usize::MAX,
        prod(r.take(axis)) as int * sufprod(r, axis + 1) == prod(s),
        prod(r.take(axis)) as int * ((sufprod(r, axis + 1) + sufprod(r, axis + 1)) as int) <= usize::MAX,
        sufprod(r, axis + 1) + sufprod(r, axis + 1) <= usize::MAX,
{
    lemma_stack_shape(s, axis, r);
    crate::shape::lemma_sufprod_pos(r, axis + 1);
    crate::shape::lemma_sufprod_le(r, axis + 1, r.len() as int);
    lemma_take_prod_bound(r, axis);
    lemma_prod_split(r, axis);
    lemma_prod_split(s, axis);
    let pre = prod(r.take(axis));
    let inner = sufprod(r, axis + 1);
    assert(pre * (2 * inner) == 2 * (pre * inner) && inner + inner == 2 * inner && pre * (inner
        + inner) == pre * (2 * inner) && inner <= pre * (2 * inner) && 2 * inner <= pre * (2
        * inner)) by (nonlinear_arith)
        requires
            pre >= 1,
            inner >= 1,
    ;
    assert(sufprod(r, axis) == r[axis] * inner);
    assert(prod(r) == pre * (2 * inner)) by (nonlinear_arith)
        requires
            prod(r) == pre * sufprod(r, axis),
            sufprod(r, axis) == 2 * inner,
    ;
    assert(pre * inner == prod(s)) by (nonlinear_arith)
        requires
            2 * (pre * inner) == 2 * prod(s),
    ;
}


// --- matrix multiplication ---

/// One cell of the dense dot product, folded from term `k` on: the sum of
/// `a[i][k'] * b[k'][jj]` over the inner dimension, in the promoted type.
pub open spec fn mm_cell(
    t: NDArrayType,
    a: Seq<Value>,
    b: Seq<Value>,
    kdim: int,
    cols: int,
    i: int,
    jj: int,
    k: int,
) -> Value
    decreases kdim - k,
{
    if k < 0 || k >= kdim {
        crate::value::zero_value(t)
    } else {
        binop_spec(
            BinOp::Sum,
            binop_spec(BinOp::Mul, a[i * kdim + k], b[k * cols + jj]),
            mm_cell(t, a, b, kdim, cols, i, jj, k + 1),
        )
    }
}

/// The numeric result type of a matrix product: Float wins, otherwise Int;
/// boolean operands widen to integers.
pub open spec fn mm_type(ta: NDArrayType, tb: NDArrayType) -> NDArrayType {
    if ta == NDArrayType::Float || tb == NDArrayType::Float {
        NDArrayType::Float
    } else {
        NDArrayType::Int
    }
}

proof fn lemma_mm_cell_type(
    t: NDArrayType,
    a: Seq<Value>,
    b: Seq<Value>,
    kdim: int,
    cols: int,
    i: int,
    jj: int,
    k: int,
)
    requires
        t != NDArrayType::Bool,
        forall|p: int| 0 <= p < a.len() ==> vtype(#[trigger] a[p]) == t,
        forall|p: int| 0 <= p < b.len() ==> vtype(#[trigger] b[p]) == t,
        forall|k2: int| k <= k2 < kdim ==> 0 <= #[trigger] (i * kdim + k2) < a.len(),
        forall|k2: int| k <= k2 < kdim ==> 0 <= #[trigger] (k2 * cols + jj) < b.len(),
    ensures
        vtype(mm_cell(t, a, b, kdim, cols, i, jj, k)) == t,
    decreases kdim - k,
{
    if 0 <= k < kdim {
        lemma_mm_cell_type(t, a, b, kdim, cols, i, jj, k + 1);
    }
}

/// Dense matrix multiplication of two rank-2 arrays with matching inner
/// dimensions, in the promoted numeric type.
pub fn matmul(a: &NDArrayOwned, b: &NDArrayOwned) -> (r: Result<NDArrayOwned, RyndError>)
    requires
        a.wf(),
        b.wf(),
        mm_shapes_ok(a.shape@, b.shape@) ==> {
            &&& a.shape@[0] * b.shape@[1] <= i64::MAX
            &&& a.shape@[0] * b.shape@[1] <= usize::MAX
        },
    ensures
        !mm_shapes_ok(a.shape@, b.shape@) ==> r == Err::<NDArrayOwned, RyndError>(
            RyndError::IncompatibleShape,
        ),
        mm_shapes_ok(a.shape@, b.shape@) ==> r is Ok && {
            let out = r.unwrap();
            let rt = mm_type(a.tp(), b.tp());
            let ca = a.elems().map_values(|v: Value| cast_spec(v, rt));
            let cb = b.elems().map_values(|v: Value| cast_spec(v, rt));
            let rows = a.shape@[0] as int;
            let kdim = a.shape@[1] as int;
            let cols = b.shape@[1] as int;
            &&& out.wf()
            &&& out.tp() == rt
            &&& out.shape@.len() == 2
            &&& out.shape@[0] == a.shape@[0]
            &&& out.shape@[1] == b.shape@[1]
            &&& forall|i: int, jj: int|
                0 <= i < rows && 0 <= jj < cols ==> #[trigger] out.elems()[i * cols + jj]
                    == mm_cell(rt, ca, cb, kdim, cols, i, jj, 0)
        },
{
    if a.shape.len() != 2 || b.shape.len() != 2 || a.shape[1] != b.shape[0] {
        return Err(RyndError::IncompatibleShape);
    }
    let rows = a.shape[0];
    let kdim = a.shape[1];
    let cols = b.shape[1];
    let ta = a.tp_exec();
    let tb = b.tp_exec();
    let rt = if ta == NDArrayType::Float || tb == NDArrayType::Float {
        NDArrayType::Float
    } else {
        NDArrayType::Int
    };
    let ca = a.cast(rt);
    let cb = b.cast(rt);
    proof {
        lemma_rank2_len(a.shape@);
        lemma_rank2_len(b.shape@);
        crate::algorithms::lemma_buffer_typed(&ca.data);
        crate::algorithms::lemma_buffer_typed(&cb.data);
        assert(ca.elems() =~= a.elems().map_values(|v: Value| cast_spec(v, rt)));
        assert(cb.elems() =~= b.elems().map_values(|v: Value| cast_spec(v, rt)));
    }
    let ghost cas = ca.elems();
    let ghost cbs = cb.elems();
    let lena = ca.data.len();
    let lenb = cb.data.len();
    let mut out = Buffer::empty(rt);
    let mut i: usize = 0;
    while i < rows
        invariant
            0 <= i <= rows,
            ca.wf(),
            cb.wf(),
            ca.tp() == rt,
            cb.tp() == rt,
            rt == mm_type(a.tp(), b.tp()),
            rt != NDArrayType::Bool,
            cas == ca.elems(),
            cbs == cb.elems(),
            rows as int * kdim as int == ca.elems().len(),
            kdim as int * cols as int == cb.elems().len(),
            rows as int * cols as int <= usize::MAX,
            lena == ca.elems().len(),
            lenb == cb.elems().len(),
            forall|p: int| 0 <= p < cas.len() ==> vtype(#[trigger] cas[p]) == rt,
            forall|p: int| 0 <= p < cbs.len() ==> vtype(#[trigger] cbs[p]) == rt,
            out.elem_type() == rt,
            out.vals().len() == i as int * cols as int,
            forall|i2: int, j2: int|
                0 <= i2 < i && 0 <= j2 < cols ==> #[trigger] out.vals()[i2 * cols + j2] == mm_cell(
                    rt,
                    cas,
                    cbs,
                    kdim as int,
                    cols as int,
                    i2,
                    j2,
                    0,
                ),
        decreases rows - i,
    {
        let mut jj: usize = 0;
        while jj < cols
            invariant
                0 <= jj <= cols,
                0 <= i < rows,
                ca.wf(),
                cb.wf(),
                ca.tp() == rt,
                cb.tp() == rt,
                rt != NDArrayType::Bool,
                cas == ca.elems(),
                cbs == cb.elems(),
                rows as int * kdim as int == ca.elems().len(),
                kdim as int * cols as int == cb.elems().len(),
                rows as int * cols as int <= usize::MAX,
                lena == ca.elems().len(),
                lenb == cb.elems().len(),
                forall|p: int| 0 <= p < cas.len() ==> vtype(#[trigger] cas[p]) == rt,
                forall|p: int| 0 <= p < cbs.len() ==> vtype(#[trigger] cbs[p]) == rt,
                out.elem_type() == rt,
                out.vals().len() == i as int * cols as int + jj,
                forall|i2: int, j2: int|
                    0 <= i2 < i && 0 <= j2 < cols ==> #[trigger] out.vals()[i2 * cols + j2]
                        == mm_cell(rt, cas, cbs, kdim as int, cols as int, i2, j2, 0),
                forall|j2: int|
                    0 <= j2 < jj ==> #[trigger] out.vals()[i as int * cols as int + j2] == mm_cell(
                        rt,
                        cas,
                        cbs,
                        kdim as int,
                        cols as int,
                        i as int,
                        j2,
                        0,
                    ),
            decreases cols - jj,
        {
            let mut acc = crate::value::zero_of(rt);
            let mut k: usize = kdim;
            proof {
                lemma_lane_elem(i as int, rows as int, cols as int, jj as int);
            }
            while k > 0
                invariant
                    0 <= k <= kdim,
                    0 <= i < rows,
                    0 <= jj < cols,
                    ca.wf(),
                    cb.wf(),
                    rt != NDArrayType::Bool,
                    cas == ca.elems(),
                    cbs == cb.elems(),
                    rows as int * kdim as int == ca.elems().len(),
                    kdim as int * cols as int == cb.elems().len(),
                    lena == ca.elems().len(),
                    lenb == cb.elems().len(),
                    forall|p: int| 0 <= p < cas.len() ==> vtype(#[trigger] cas[p]) == rt,
                    forall|p: int| 0 <= p < cbs.len() ==> vtype(#[trigger] cbs[p]) == rt,
                    acc == mm_cell(rt, cas, cbs, kdim as int, cols as int, i as int, jj as int, k as int),
                    vtype(acc) == rt,
                decreases k,
            {
                k -= 1;
                proof {
                    lemma_lane_elem(i as int, rows as int, kdim as int, k as int);
                    lemma_lane_elem(k as int, kdim as int, cols as int, jj as int);
                    assert forall|k2: int|
                        k + 1 <= k2 < kdim implies 0 <= #[trigger] (i as int * kdim as int + k2)
                        < cas.len() by {
                        lemma_lane_elem(i as int, rows as int, kdim as int, k2);
                    }
                    assert forall|k2: int|
                        k + 1 <= k2 < kdim implies 0 <= #[trigger] (k2 * cols as int + jj as int)
                        < cbs.len() by {
                        lemma_lane_elem(k2, kdim as int, cols as int, jj as int);
                    }
                    lemma_mm_cell_type(
                        rt, cas, cbs, kdim as int, cols as int, i as int, jj as int, k + 1,
                    );
                }
                let x = ca.data.get(i * kdim + k);
                let y = cb.data.get(k * cols + jj);
                let p = match crate::value::binop_val(BinOp::Mul, &x, &y) {
                    Ok(v) => v,
                    Err(_) => {
                        proof {
                            assert(false);
                        }
                        acc
                    },
                };
                let s = match crate::value::binop_val(BinOp::Sum, &p, &acc) {
                    Ok(v) => v,
                    Err(_) => {
                        proof {
                            assert(false);
                        }
                        acc
                    },
                };
                acc = s;
            }
            out.push(acc);
            proof {
                assert forall|i2: int, j2: int|
                    0 <= i2 < i && 0 <= j2 < cols implies #[trigger] out.vals()[i2 * cols + j2]
                    == mm_cell(rt, cas, cbs, kdim as int, cols as int, i2, j2, 0) by {
                    lemma_lane_elem(i2, i as int, cols as int, j2);
                }
            }
            jj += 1;
        }
        proof {
            assert forall|i2: int, j2: int|
                0 <= i2 < i + 1 && 0 <= j2 < cols implies #[trigger] out.vals()[i2 * cols + j2]
                == mm_cell(rt, cas, cbs, kdim as int, cols as int, i2, j2, 0) by {
                if i2 == i as int {
                    assert(out.vals()[i as int * cols as int + j2] == mm_cell(
                        rt,
                        cas,
                        cbs,
                        kdim as int,
                        cols as int,
                        i as int,
                        j2,
                        0,
                    ));
                }
            }
        }
        i += 1;
        proof {
            assert(i as int * cols as int == (i - 1) * cols as int + cols as int)
                by (nonlinear_arith);
        }
    }
    let mut shape: Vec<usize> = Vec::new();
    shape.push(rows);
    shape.push(cols);
    let arr = NDArrayOwned { shape, data: out };
    proof {
        lemma_rank2_len(arr.shape@);
    }
    Ok(arr)
}

/// Both operands are rank 2 and the inner dimensions agree.
pub open spec fn mm_shapes_ok(a: Seq<usize>, b: Seq<usize>) -> bool {
    a.len() == 2 && b.len() == 2 && a[1] == b[0]
}

/// A rank-2 array holds `rows * cols` elements.
pub proof fn lemma_rank2_len(s: Seq<usize>)
    requires
        s.len() == 2,
    ensures
        prod(s) == s[0] * s[1],
{
    assert(sufprod(s, 2) == 1);
    assert(sufprod(s, 1) == s[1] as int * 1);
    assert(s[1] as int * 1 == s[1] as int) by (nonlinear_arith);
}

// --- integer gathering and coordinates of the nonzero elements ---

/// Gathers whole rows along the first axis: output row `r` is input row
/// `wrap(idx[r], first_dim)`.
pub fn gather_rows(a: &NDArrayOwned, idx: &Vec<i64>) -> (r: Result<NDArrayOwned, RyndError>)
    requires
        a.wf(),
        a.shape@.len() >= 1,
        idx@.len() * sufprod(a.shape@, 1) <= i64::MAX,
        idx@.len() * sufprod(a.shape@, 1) <= usize::MAX,
    ensures
        r is Ok ==> {
            let out = r.unwrap();
            let rowsize = sufprod(a.shape@, 1);
            &&& out.wf()
            &&& out.tp() == a.tp()
            &&& out.shape@ =~= a.shape@.update(0, idx@.len() as usize)
            &&& forall|r2: int, t: int|
                0 <= r2 < idx@.len() && 0 <= t < rowsize ==> #[trigger] out.elems()[r2 * rowsize
                    + t] == a.elems()[wrap_index(idx@[r2] as int, a.shape@[0] as int) * rowsize
                    + t]
        },
        r is Err ==> r == Err::<NDArrayOwned, RyndError>(RyndError::InvalidIndex) && (exists|
            r2: int,
        |
            0 <= r2 < idx@.len() && !(a.shape@[0] > 0 && 0 <= wrap_index(
                #[trigger] idx@[r2] as int,
                a.shape@[0] as int,
            ) < a.shape@[0])),
{
    let d0 = a.shape[0];
    proof {
        crate::ops::lemma_prod_split(a.shape@, 1);
        assert(a.shape@.take(1) =~= seq![a.shape@[0]]);
        crate::shape::lemma_prod_single(seq![a.shape@[0]]);
        crate::shape::lemma_sufprod_nonneg(a.shape@, 1);
    }
    let nrows = idx.len();
    // rowsize = prod(shape[1..]); derive it from the buffer when possible
    let rowsize: usize = if d0 == 0 {
        // rows of a zero-length axis can never be selected
        if nrows > 0 {
            proof {
                let w0 = wrap_index(idx@[0] as int, a.shape@[0] as int);
                assert(0 <= 0 < idx@.len() && !(a.shape@[0] > 0 && 0 <= w0 < a.shape@[0]));
            }
            return Err(RyndError::InvalidIndex);
        }
        0
    } else {
        proof {
            assert(a.elems().len() == d0 as int * sufprod(a.shape@, 1));
            assert(sufprod(a.shape@, 1) <= a.elems().len()) by (nonlinear_arith)
                requires
                    d0 >= 1,
                    a.elems().len() == d0 as int * sufprod(a.shape@, 1),
                    sufprod(a.shape@, 1) >= 0,
            ;
        }
        let total = a.data.len();
        total / d0
    };
    proof {
        if d0 != 0 {
            assert(a.elems().len() == d0 as int * sufprod(a.shape@, 1));
            assert(a.elems().len() as int == sufprod(a.shape@, 1) * d0 as int + 0)
                by (nonlinear_arith)
                requires
                    a.elems().len() == d0 as int * sufprod(a.shape@, 1),
            ;
            vstd::arithmetic::div_mod::lemma_fundamental_div_mod_converse_div(
                a.elems().len() as int,
                d0 as int,
                sufprod(a.shape@, 1),
                0,
            );
        }
    }
    let t = a.tp_exec();
    let lena = a.data.len();
    let mut out = Buffer::empty(t);
    let mut r2: usize = 0;
    while r2 < nrows
        invariant
            0 <= r2 <= nrows,
            a.wf(),
            a.shape@.len() >= 1,
            a.tp() == t,
            lena == a.elems().len(),
            nrows == idx@.len(),
            d0 == a.shape@[0],
            rowsize as int == sufprod(a.shape@, 1) || (d0 == 0 && nrows == 0),
            a.elems().len() == d0 as int * sufprod(a.shape@, 1),
            nrows as int * sufprod(a.shape@, 1) <= usize::MAX,
            out.elem_type() == t,
            out.vals().len() == r2 as int * rowsize as int,
            forall|r3: int, t3: int|
                0 <= r3 < r2 && 0 <= t3 < rowsize ==> #[trigger] out.vals()[r3 * rowsize + t3]
                    == a.elems()[wrap_index(idx@[r3] as int, d0 as int) * rowsize as int + t3],
        decreases nrows - r2,
    {
        let w = match resolve_index(idx[r2], d0) {
            Ok(w) => w,
            Err(e) => {
                proof {
                    assert(!(a.shape@[0] > 0 && 0 <= wrap_index(
                        idx@[r2 as int] as int,
                        a.shape@[0] as int,
                    ) < a.shape@[0]));
                }
                return Err(e);
            },
        };
        let mut t3: usize = 0;
        proof {
            assert(rowsize as int == sufprod(a.shape@, 1));
        }
        while t3 < rowsize
            invariant
                0 <= t3 <= rowsize,
                0 <= r2 < nrows,
                a.wf(),
                a.tp() == t,
                a.shape@.len() >= 1,
                lena == a.elems().len(),
                nrows == idx@.len(),
                d0 == a.shape@[0],
                (w as int) == wrap_index(idx@[r2 as int] as int, d0 as int),
                w < d0,
                rowsize as int == sufprod(a.shape@, 1),
                a.elems().len() == d0 as int * sufprod(a.shape@, 1),
                nrows as int * rowsize as int <= usize::MAX,
                out.elem_type() == t,
                out.vals().len() == r2 as int * rowsize as int + t3,
                forall|r3: int, t4: int|
                    0 <= r3 < r2 && 0 <= t4 < rowsize ==> #[trigger] out.vals()[r3 * rowsize + t4]
                        == a.elems()[wrap_index(idx@[r3] as int, d0 as int) * rowsize as int + t4],
                forall|t4: int|
                    0 <= t4 < t3 ==> #[trigger] out.vals()[r2 as int * rowsize as int + t4]
                        == a.elems()[w as int * rowsize as int + t4],
            decreases rowsize - t3,
        {
            proof {
                lemma_lane_elem(w as int, d0 as int, rowsize as int, t3 as int);
                lemma_lane_elem(r2 as int, nrows as int, rowsize as int, t3 as int);
                assert(d0 as int * rowsize as int == a.elems().len()) by (nonlinear_arith)
                    requires
                        a.elems().len() == d0 as int * sufprod(a.shape@, 1),
                        rowsize as int == sufprod(a.shape@, 1),
                ;
            }
            let v = a.data.get(w * rowsize + t3);
            out.push(v);
            proof {
                assert forall|r3: int, t4: int|
                    0 <= r3 < r2 && 0 <= t4 < rowsize implies #[trigger] out.vals()[r3 * rowsize
                    + t4] == a.elems()[wrap_index(idx@[r3] as int, d0 as int) * rowsize as int
                    + t4] by {
                    lemma_lane_elem(r3, r2 as int, rowsize as int, t4);
                }
            }
            t3 += 1;
        }
        proof {
            assert forall|r3: int, t4: int|
                0 <= r3 < r2 + 1 && 0 <= t4 < rowsize implies #[trigger] out.vals()[r3 * rowsize
                + t4] == a.elems()[wrap_index(idx@[r3] as int, d0 as int) * rowsize as int
                + t4] by {
                if r3 == r2 as int {
                    assert(out.vals()[r2 as int * rowsize as int + t4] == a.elems()[w as int
                        * rowsize as int + t4]);
                }
            }
        }
        r2 += 1;
        proof {
            assert(r2 as int * rowsize as int == (r2 - 1) * rowsize as int + rowsize as int)
                by (nonlinear_arith);
        }
    }
    let mut shape = clone_shape(&a.shape);
    shape.set(0, nrows);
    let arr = NDArrayOwned { shape, data: out };
    proof {
        crate::ops::lemma_prod_split(arr.shape@, 1);
        assert(arr.shape@.take(1) =~= seq![nrows as usize]);
        crate::shape::lemma_prod_single(seq![nrows as usize]);
        lemma_sufprod_eq_from(arr.shape@, a.shape@, 1);
        if d0 == 0 && nrows == 0 {
            assert(arr.elems().len() == 0);
            assert(prod(arr.shape@) == nrows as int * sufprod(a.shape@, 1)) by (nonlinear_arith)
                requires
                    prod(arr.shape@) == nrows as int * sufprod(arr.shape@, 1),
                    sufprod(arr.shape@, 1) == sufprod(a.shape@, 1),
                    nrows == 0,
            ;
        }
    }
    Ok(arr)
}

fn clone_shape(v: &Vec<usize>) -> (r: Vec<usize>)
    ensures
        r@ == v@,
{
    let mut r: Vec<usize> = Vec::new();
    let n = v.len();
    let mut i: usize = 0;
    while i < n
        invariant
            0 <= i <= n,
            n == v@.len(),
            r@.len() == i,
            forall|k: int| 0 <= k < i ==> r@[k] == v@[k],
        decreases n - i,
    {
        r.push(v[i]);
        i += 1;
    }
    proof {
        assert(r@ =~= v@);
    }
    r
}

/// The flat positions of the nonzero elements, in iteration order.
pub open spec fn nonzero_positions(elems: Seq<Value>) -> Seq<int>
    decreases elems.len(),
{
    if elems.len() == 0 {
        Seq::empty()
    } else {
        nonzero_positions(elems.drop_last()) + (if as_bool(elems.last()) {
            seq![elems.len() - 1]
        } else {
            Seq::empty()
        })
    }
}

/// The coordinates of every nonzero element, as a 2-D Int array of one row
/// per nonzero element in iteration order.
pub fn nonzero(a: &NDArrayOwned) -> (r: Result<NDArrayOwned, RyndError>)
    requires
        a.wf(),
    ensures
        r is Err ==> r == Err::<NDArrayOwned, RyndError>(RyndError::UnsupportedOperation)
            && nonzero_positions(a.elems()).len() * a.shape@.len() > i64::MAX,
        r is Ok ==> {
            let out = r.unwrap();
            &&& out.wf()
            &&& out.tp() == NDArrayType::Int
            &&& out.shape@.len() == 2
            &&& out.shape@[0] == nonzero_positions(a.elems()).len()
            &&& out.shape@[1] == a.shape@.len()
            &&& forall|p: int, k: int|
                0 <= p < nonzero_positions(a.elems()).len() && 0 <= k < a.shape@.len()
                    ==> #[trigger] out.elems()[p * a.shape@.len() + k] == Value::Int(
                    unrank(a.shape@, nonzero_positions(a.elems())[p])[k] as i64,
                )
        },
{
    let ndim = a.shape.len();
    let n = a.data.len();
    let ghost positions = nonzero_positions(a.elems());
    let mut rows: usize = 0;
    let mut out: Vec<i64> = Vec::new();
    let mut i: usize = 0;
    proof {
        if n > 0 {
            crate::shape::lemma_sufprod_pos(a.shape@, 0);
        }
        lemma_nonzero_bound(a.elems());
    }
    let sp = if n > 0 {
        crate::shape::suffix_products(&a.shape)
    } else {
        Vec::new()
    };
    while i < n
        invariant
            0 <= i <= n,
            a.wf(),
            n == a.elems().len(),
            ndim == a.shape@.len(),
            positions == nonzero_positions(a.elems()),
            n > 0 ==> sp@.len() == ndim + 1,
            n > 0 ==> forall|d: int|
                0 <= d <= ndim ==> (#[trigger] sp@[d]) == sufprod(a.shape@, d),
            n > 0 ==> prod(a.shape@) > 0,
            rows as int == nonzero_positions(a.elems().take(i as int)).len(),
            rows <= i,
            out@.len() == rows as int * ndim as int,
            forall|p: int, k: int|
                0 <= p < rows && 0 <= k < ndim ==> #[trigger] out@[p * ndim + k] == unrank(
                    a.shape@,
                    nonzero_positions(a.elems().take(i as int))[p],
                )[k] as i64,
            forall|p: int|
                0 <= p < rows ==> #[trigger] nonzero_positions(a.elems().take(i as int))[p]
                    == nonzero_positions(a.elems())[p],
        decreases n - i,
    {
        proof {
            assert(a.elems().take(i + 1).drop_last() =~= a.elems().take(i as int));
            assert(a.elems().take(i + 1).last() == a.elems()[i as int]);
            lemma_nonzero_prefix(a.elems(), i as int);
            lemma_nonzero_prefix(a.elems(), i + 1);
            lemma_nonzero_bound(a.elems().take(i as int));
            lemma_nonzero_bound(a.elems().take(i + 1));
        }
        let v = a.data.get(i);
        let is_nz = crate::value::as_bool_exec(&v);
        if is_nz {
            // append the coordinates of position i
            let mut k: usize = 0;
            let ghost c = unrank(a.shape@, i as int);
            proof {
                crate::shape::lemma_unrank_valid(a.shape@, i as int);
                assert(rows as int * ndim as int + ndim as int == (rows + 1) * ndim as int)
                    by (nonlinear_arith);
            }
            while k < ndim
                invariant
                    0 <= k <= ndim,
                    a.wf(),
                    ndim == a.shape@.len(),
                    0 <= (i as int) < a.elems().len(),
                    prod(a.shape@) > 0,
                    c == unrank(a.shape@, i as int),
                    crate::shape::valid_coords(a.shape@, c),
                    n == a.elems().len(),
                    sp@.len() == ndim + 1,
                    forall|d: int| 0 <= d <= ndim ==> (#[trigger] sp@[d]) == sufprod(a.shape@, d),
                    out@.len() == rows as int * ndim as int + k,
                    forall|p: int, k2: int|
                        0 <= p < rows && 0 <= k2 < ndim ==> #[trigger] out@[p * ndim + k2]
                            == unrank(
                            a.shape@,
                            nonzero_positions(a.elems().take(i as int))[p],
                        )[k2] as i64,
                    forall|k2: int|
                        0 <= k2 < k ==> #[trigger] out@[rows as int * ndim as int + k2]
                            == c[k2] as i64,
                decreases ndim - k,
            {
                proof {
                    crate::shape::lemma_sufprod_pos(a.shape@, k as int + 1);
                    assert(c[k as int] < a.shape@[k as int]);
                    assert(a.shape@[k as int] <= prod(a.shape@)) by {
                        crate::shape::lemma_prod_remove(a.shape@, k as int);
                        crate::shape::lemma_sufprod_pos(a.shape@, 0);
                        lemma_dim_le_prod(a.shape@, k as int);
                    }
                }
                let coord: usize = (i / sp[k + 1]) % a.shape[k];
                out.push(coord as i64);
                proof {
                    assert forall|p: int, k2: int|
                        0 <= p < rows && 0 <= k2 < ndim implies #[trigger] out@[p * ndim + k2]
                        == unrank(
                        a.shape@,
                        nonzero_positions(a.elems().take(i as int))[p],
                    )[k2] as i64 by {
                        lemma_lane_elem(p, rows as int, ndim as int, k2);
                    }
                }
                k += 1;
            }
            rows += 1;
        }
        i += 1;
    }
    proof {
        assert(a.elems().take(n as int) =~= a.elems());
    }
    if (out.len() as u128) > (i64::MAX as u128) {
        proof {
            assert(rows as int * ndim as int > i64::MAX);
        }
        return Err(RyndError::UnsupportedOperation);
    }
    let ghost outg = out@;
    let mut shape: Vec<usize> = Vec::new();
    shape.push(rows);
    shape.push(ndim);
    let arr = NDArrayOwned { shape, data: Buffer::Int(out) };
    proof {
        lemma_rank2_len(arr.shape@);
        lemma_nonzero_bound(a.elems());
        assert(arr.elems().len() == rows as int * ndim as int);
        assert forall|p: int, k: int|
            0 <= p < nonzero_positions(a.elems()).len() && 0 <= k < a.shape@.len()
                implies #[trigger] arr.elems()[p * a.shape@.len() + k] == Value::Int(
            unrank(a.shape@, nonzero_positions(a.elems())[p])[k] as i64,
        ) by {
            lemma_lane_elem(p, rows as int, ndim as int, k);
            assert(arr.elems()[p * ndim + k] == Value::Int(outg[p * ndim + k]));
            assert(outg[p * ndim + k] == unrank(
                a.shape@,
                nonzero_positions(a.elems().take(n as int))[p],
            )[k] as i64);
        }
    }
    Ok(arr)
}

/// There are no more nonzero positions than elements, and each is in range.
pub proof fn lemma_nonzero_bound(s: Seq<Value>)
    ensures
        nonzero_positions(s).len() <= s.len(),
        forall|p: int|
            0 <= p < nonzero_positions(s).len() ==> 0 <= #[trigger] nonzero_positions(s)[p]
                < s.len(),
    decreases s.len(),
{
    if s.len() > 0 {
        lemma_nonzero_bound(s.drop_last());
    }
}

/// Extending the scanned prefix preserves the earlier nonzero positions.
proof fn lemma_nonzero_prefix(s: Seq<Value>, i: int)
    requires
        0 <= i <= s.len(),
    ensures
        forall|p: int|
            0 <= p < nonzero_positions(s.take(i)).len() ==> #[trigger] nonzero_positions(
                s.take(i),
            )[p] == nonzero_positions(s)[p],
        nonzero_positions(s.take(i)).len() <= nonzero_positions(s).len(),
    decreases s.len() - i,
{
    if i < s.len() {
        lemma_nonzero_prefix(s, i + 1);
        assert(s.take(i + 1).drop_last() =~= s.take(i));
        assert(s.take(i + 1).last() == s[i]);
        assert forall|p: int|
            0 <= p < nonzero_positions(s.take(i)).len() implies #[trigger] nonzero_positions(
            s.take(i),
        )[p] == nonzero_positions(s)[p] by {
            assert(nonzero_positions(s.take(i + 1))[p] == nonzero_positions(s.take(i))[p]);
            assert(nonzero_positions(s.take(i + 1))[p] == nonzero_positions(s)[p]);
        }
    } else {
        assert(s.take(i) =~= s);
    }
}

proof fn lemma_dim_le_prod(s: Seq<usize>, k: int)
    requires
        0 <= k < s.len(),
        prod(s) > 0,
    ensures
        s[k] <= prod(s),
{
    crate::shape::lemma_prod_remove(s, k);
    crate::shape::lemma_sufprod_pos(s, 0);
    let rest = prod(s.remove(k));
    assert(rest > 0) by (nonlinear_arith)
        requires
            s[k] as int * rest > 0,
            s[k] >= 0,
            rest >= 0 || true,
    ;
    vstd::arithmetic::mul::lemma_mul_inequality(1, rest, s[k] as int);
    vstd::arithmetic::mul::lemma_mul_is_commutative(rest, s[k] as int);
}


/// The source coordinates row `r2` of a flat coordinate-tuple index selects,
/// each wrapped against its axis.
pub open spec fn coord_row(idx: Seq<i64>, shape: Seq<usize>, r2: int) -> Seq<int> {
    Seq::new(shape.len(), |k: int| wrap_index(idx[r2 * shape.len() + k] as int, shape[k] as int))
}

/// Coordinate `k` of row `r2` lands on its axis after wrapping.
pub open spec fn coord_ok_at(idx: Seq<i64>, shape: Seq<usize>, r2: int, k: int) -> bool {
    &&& shape[k] > 0
    &&& 0 <= coord_row(idx, shape, r2)[k]
    &&& coord_row(idx, shape, r2)[k] < shape[k]
}

/// Whether every coordinate of row `r2` lands on its axis after wrapping.
pub open spec fn coord_row_ok(idx: Seq<i64>, shape: Seq<usize>, r2: int) -> bool {
    forall|k: int| 0 <= k < shape.len() ==> #[trigger] coord_ok_at(idx, shape, r2, k)
}

/// Computes the flat position of valid coordinates; `sp` holds the shape's
/// suffix products.
fn rank_exec(shape: &Vec<usize>, sp: &Vec<usize>, coords: &Vec<usize>) -> (r: usize)
    requires
        prod(shape@) > 0,
        prod(shape@) <= usize::MAX,
        coords@.len() == shape@.len(),
        crate::shape::valid_coords(shape@, crate::view::coords_int(coords@)),
        sp@.len() == shape@.len() + 1,
        forall|i: int| 0 <= i <= shape@.len() ==> (#[trigger] sp@[i]) == sufprod(shape@, i),
    ensures
        r as int == crate::shape::rank_of(shape@, crate::view::coords_int(coords@)),
        r < prod(shape@),
{
    let ndim = shape.len();
    let ghost s = shape@;
    let ghost c = crate::view::coords_int(coords@);
    let mut acc: usize = 0;
    let mut k: usize = ndim;
    proof {
        crate::shape::lemma_rnk_bounds(s, c, 0);
    }
    while k > 0
        invariant
            0 <= k <= ndim,
            ndim == s.len(),
            s == shape@,
            c == crate::view::coords_int(coords@),
            coords@.len() == ndim,
            prod(s) > 0,
            prod(s) <= usize::MAX,
            crate::shape::valid_coords(s, c),
            sp@.len() == ndim + 1,
            forall|i: int| 0 <= i <= ndim ==> (#[trigger] sp@[i]) == sufprod(s, i),
            acc as int == crate::shape::rnk(s, c, k as int),
        decreases k,
    {
        k -= 1;
        proof {
            crate::shape::lemma_rnk_bounds(s, c, k as int);
            crate::shape::lemma_rnk_bounds(s, c, k as int + 1);
            crate::shape::lemma_sufprod_pos(s, k as int);
            crate::shape::lemma_sufprod_le(s, k as int, ndim as int);
            crate::shape::lemma_sufprod_le(s, 0, k as int);
            vstd::arithmetic::mul::lemma_mul_nonnegative(c[k as int], sufprod(s, k as int + 1));
        }
        let term = coords[k] * sp[k + 1];
        acc = acc + term;
    }
    acc
}

/// Gathers one element per coordinate-tuple row: row `r2` of the flat index
/// holds a full coordinate tuple, wrapped per axis, and selects one element.
pub fn gather_coords(a: &NDArrayOwned, idx: &Vec<i64>, nrows: usize) -> (r: Result<
    NDArrayOwned,
    RyndError,
>)
    requires
        a.wf(),
        idx@.len() == nrows * a.shape@.len(),
        nrows <= i64::MAX,
    ensures
        r is Err ==> r == Err::<NDArrayOwned, RyndError>(RyndError::InvalidIndex) && (exists|
            r2: int,
        |
            0 <= r2 < nrows && !coord_row_ok(idx@, a.shape@, r2)),
        (forall|r2: int| 0 <= r2 < nrows ==> coord_row_ok(idx@, a.shape@, r2)) ==> r is Ok,
        r is Ok ==> {
            let out = r.unwrap();
            &&& out.wf()
            &&& out.tp() == a.tp()
            &&& out.shape@ =~= seq![nrows]
            &&& out.elems().len() == nrows
            &&& forall|r2: int|
                0 <= r2 < nrows ==> #[trigger] out.elems()[r2] == a.elems()[crate::shape::rank_of(
                    a.shape@,
                    coord_row(idx@, a.shape@, r2),
                )]
        },
{
    let ndim = a.shape.len();
    let ghost s = a.shape@;
    let t = a.tp_exec();
    let mut out = Buffer::empty(t);
    let mut r2: usize = 0;
    // selecting by coordinates demands every axis nonempty once a row exists
    let lena = a.data.len();
    let leni = idx.len();
    if nrows > 0 {
        let mut k: usize = 0;
        while k < ndim
            invariant
                0 <= k <= ndim,
                a.wf(),
                s == a.shape@,
                ndim == s.len(),
                nrows > 0,
                idx@.len() == nrows * s.len(),
                forall|i: int| 0 <= i < k ==> (#[trigger] s[i]) > 0,
            decreases ndim - k,
        {
            if a.shape[k] == 0 {
                proof {
                    assert(!coord_row_ok(idx@, s, 0)) by {
                        if coord_row_ok(idx@, s, 0) {
                            assert(coord_ok_at(idx@, s, 0, k as int));
                            assert(false);
                        }
                    }
                }
                return Err(RyndError::InvalidIndex);
            }
            k += 1;
        }
        proof {
            lemma_all_pos_prod(s, 0);
        }
    }
    if nrows == 0 {
        let mut shape: Vec<usize> = Vec::new();
        shape.push(0);
        let arr = NDArrayOwned { shape, data: out };
        proof {
            crate::shape::lemma_prod_single(arr.shape@);
        }
        return Ok(arr);
    }
    let sp = crate::shape::suffix_products(&a.shape);
    while r2 < nrows
        invariant
            0 <= r2 <= nrows,
            a.wf(),
            a.tp() == t,
            ndim == s.len(),
            s == a.shape@,
            nrows > 0,
            prod(s) > 0,
            prod(s) <= usize::MAX,
            idx@.len() == nrows * s.len(),
            leni == idx@.len(),
            sp@.len() == ndim + 1,
            forall|i: int| 0 <= i <= ndim ==> (#[trigger] sp@[i]) == sufprod(s, i),
            out.elem_type() == t,
            out.vals().len() == r2,
            forall|r3: int|
                0 <= r3 < r2 ==> #[trigger] out.vals()[r3] == a.elems()[crate::shape::rank_of(
                    s,
                    coord_row(idx@, s, r3),
                )],
            forall|r3: int| 0 <= r3 < r2 ==> coord_row_ok(idx@, s, r3),
        decreases nrows - r2,
    {
        let mut coords: Vec<usize> = Vec::new();
        let mut k: usize = 0;
        proof {
            lemma_row_base(r2 as int, nrows as int, ndim as int);
        }
        while k < ndim
            invariant
                0 <= k <= ndim,
                ndim == s.len(),
                s == a.shape@,
                0 <= r2 < nrows,
                idx@.len() == nrows * s.len(),
                leni == idx@.len(),
                0 <= r2 as int * ndim as int,
                r2 as int * ndim as int + ndim <= idx@.len(),
                coords@.len() == k,
                forall|i: int|
                    0 <= i < k ==> (#[trigger] coords@[i]) as int == coord_row(idx@, s, r2 as int)[
                        i] && 0 <= coords@[i] < s[i],
            decreases ndim - k,
        {
            let raw = idx[r2 * ndim + k];
            let w = match resolve_index(raw, a.shape[k]) {
                Ok(w) => w,
                Err(e) => {
                    proof {
                        assert(!coord_row_ok(idx@, s, r2 as int)) by {
                            if coord_row_ok(idx@, s, r2 as int) {
                                assert(coord_ok_at(idx@, s, r2 as int, k as int));
                                assert(coord_row(idx@, s, r2 as int)[k as int] == wrap_index(
                                    idx@[r2 as int * s.len() + k] as int,
                                    s[k as int] as int,
                                ));
                                assert(false);
                            }
                        }
                    }
                    return Err(e);
                },
            };
            coords.push(w);
            k += 1;
        }
        proof {
            assert forall|kk: int| 0 <= kk < s.len() implies #[trigger] coord_ok_at(
                idx@,
                s,
                r2 as int,
                kk,
            ) by {
                assert(coords@[kk] as int == coord_row(idx@, s, r2 as int)[kk] && 0 <= coords@[kk]
                    < s[kk]);
            }
            assert(coord_row_ok(idx@, s, r2 as int));
            assert(crate::view::coords_int(coords@) =~= coord_row(idx@, s, r2 as int));
        }
        let flat = rank_exec(&a.shape, &sp, &coords);
        let v = a.data.get(flat);
        out.push(v);
        r2 += 1;
    }
    let mut shape: Vec<usize> = Vec::new();
    shape.push(nrows);
    let arr = NDArrayOwned { shape, data: out };
    proof {
        crate::shape::lemma_prod_single(arr.shape@);
    }
    Ok(arr)
}

proof fn lemma_all_pos_prod(s: Seq<usize>, k: int)
    requires
        forall|i: int| 0 <= i < s.len() ==> (#[trigger] s[i]) > 0,
        0 <= k,
    ensures
        sufprod(s, k) > 0,
    decreases s.len() - k,
{
    if k < s.len() {
        lemma_all_pos_prod(s, k + 1);
        vstd::arithmetic::mul::lemma_mul_inequality(1, s[k] as int, sufprod(s, k + 1));
    }
}

/// Row `r2`'s slots of a flat `nrows x ndim` index are in bounds.
proof fn lemma_row_base(r2: int, nrows: int, ndim: int)
    requires
        0 <= r2 < nrows,
        0 <= ndim,
    ensures
        0 <= r2 * ndim,
        r2 * ndim + ndim <= nrows * ndim,
        forall|k: int| 0 <= k < ndim ==> 0 <= #[trigger] (r2 * ndim + k) < nrows * ndim,
{
    vstd::arithmetic::mul::lemma_mul_nonnegative(r2, ndim);
    assert((r2 + 1) * ndim <= nrows * ndim && (r2 + 1) * ndim == r2 * ndim + ndim)
        by (nonlinear_arith)
        requires
            0 <= r2 < nrows,
            0 <= ndim,
    ;
    assert forall|k: int| 0 <= k < ndim implies 0 <= #[trigger] (r2 * ndim + k) < nrows * ndim by {
        lemma_lane_elem(r2, nrows, ndim, k);
    }
}

} // verus!
