use vstd::prelude::*;
use crate::NDArrayType;
use crate::shape::{prod, prod_exec};
use crate::value::{cast_spec, cast_value, vtype, zero_value, Value};

verus! {

// The only entity that owns element storage: a contiguous, typed buffer.
// Its mathematical content is the sequence of `Value`s it holds.
pub enum Buffer {
    Int(Vec<i64>),
    Float(Vec<u64>),
    Bool(Vec<bool>),
}

impl Buffer {
    pub open spec fn elem_type(&self) -> NDArrayType {
        match self {
            Buffer::Int(_) => NDArrayType::Int,
            Buffer::Float(_) => NDArrayType::Float,
            Buffer::Bool(_) => NDArrayType::Bool,
        }
    }

    /// The buffer's contents as a sequence of tagged values.
    pub open spec fn vals(&self) -> Seq<Value> {
        match self {
            Buffer::Int(v) => v@.map_values(|x: i64| Value::Int(x)),
            Buffer::Float(v) => v@.map_values(|x: u64| Value::Float(x)),
            Buffer::Bool(v) => v@.map_values(|x: bool| Value::Bool(x)),
        }
    }

    pub fn len(&self) -> (n: usize)
        ensures
            n == self.vals().len(),
    {
        match self {
            Buffer::Int(v) => v.len(),
            Buffer::Float(v) => v.len(),
            Buffer::Bool(v) => v.len(),
        }
    }

    pub fn elem_type_exec(&self) -> (t: NDArrayType)
        ensures
            t == self.elem_type(),
    {
        match self {
            Buffer::Int(_) => NDArrayType::Int,
            Buffer::Float(_) => NDArrayType::Float,
            Buffer::Bool(_) => NDArrayType::Bool,
        }
    }

    pub fn get(&self, i: usize) -> (v: Value)
        requires
            i < self.vals().len(),
        ensures
            v == self.vals()[i as int],
    {
        match self {
            Buffer::Int(d) => Value::Int(d[i]),
            Buffer::Float(d) => Value::Float(d[i]),
            Buffer::Bool(d) => Value::Bool(d[i]),
        }
    }

    pub fn set(&mut self, i: usize, v: Value)
        requires
            i < old(self).vals().len(),
            vtype(v) == old(self).elem_type(),
        ensures
            final(self).elem_type() == old(self).elem_type(),
            final(self).vals() =~= old(self).vals().update(i as int, v),
    {
        match (self, v) {
            (Buffer::Int(d), Value::Int(x)) => {
                d.set(i, x);
            },
            (Buffer::Float(d), Value::Float(x)) => {
                d.set(i, x);
            },
            (Buffer::Bool(d), Value::Bool(x)) => {
                d.set(i, x);
            },
            _ => {
                proof {
                    assert(false);
                }
            },
        }
    }

    pub fn push(&mut self, v: Value)
        requires
            vtype(v) == old(self).elem_type(),
            old(self).vals().len() < usize::MAX,
        ensures
            final(self).elem_type() == old(self).elem_type(),
            final(self).vals() =~= old(self).vals().push(v),
    {
        match (self, v) {
            (Buffer::Int(d), Value::Int(x)) => {
                d.push(x);
            },
            (Buffer::Float(d), Value::Float(x)) => {
                d.push(x);
            },
            (Buffer::Bool(d), Value::Bool(x)) => {
                d.push(x);
            },
            _ => {
                proof {
                    assert(false);
                }
            },
        }
    }

    pub fn empty(t: NDArrayType) -> (b: Buffer)
        ensures
            b.elem_type() == t,
            b.vals() =~= Seq::<Value>::empty(),
    {
        match t {
            NDArrayType::Int => Buffer::Int(Vec::new()),
            NDArrayType::Float => Buffer::Float(Vec::new()),
            NDArrayType::Bool => Buffer::Bool(Vec::new()),
        }
    }

    /// A buffer of `n` zero-initialized elements of type `t`.
    pub fn zeroed(t: NDArrayType, n: usize) -> (b: Buffer)
        ensures
            b.elem_type() == t,
            b.vals().len() == n,
            forall|k: int| 0 <= k < n ==> b.vals()[k] == zero_value(t),
    {
        let mut b = Buffer::empty(t);
        let mut i: usize = 0;
        while i < n
            invariant
                0 <= i <= n,
                b.elem_type() == t,
                b.vals().len() == i,
                forall|k: int| 0 <= k < i ==> b.vals()[k] == zero_value(t),
            decreases n - i,
        {
            let z = crate::value::zero_of(t);
            b.push(z);
            i += 1;
        }
        b
    }
}

/// An Owned array: an element type, a shape, and a contiguous row-major
/// buffer of exactly `prod(shape)` elements.
pub struct NDArrayOwned {
    pub shape: Vec<usize>,
    pub data: Buffer,
}

/// A shape whose element count a buffer (and the stride arithmetic over it)
/// can carry.
pub open spec fn shape_ok(s: Seq<usize>) -> bool {
    prod(s) <= i64::MAX && prod(s) <= usize::MAX
}

impl NDArrayOwned {
    /// The storage invariant: the buffer holds exactly one element per point
    /// of the shape, and the count fits the machine.
    pub open spec fn wf(&self) -> bool {
        &&& self.data.vals().len() == prod(self.shape@)
        &&& self.data.vals().len() <= i64::MAX
    }

    pub open spec fn tp(&self) -> NDArrayType {
        self.data.elem_type()
    }

    pub open spec fn elems(&self) -> Seq<Value> {
        self.data.vals()
    }

    /// A zero-initialized Owned array.
    pub fn new(tp: NDArrayType, shape: Vec<usize>) -> (a: NDArrayOwned)
        requires
            shape_ok(shape@),
        ensures
            a.wf(),
            a.tp() == tp,
            a.shape@ == shape@,
            a.elems().len() == prod(shape@),
            forall|k: int| 0 <= k < a.elems().len() ==> a.elems()[k] == zero_value(tp),
    {
        let n = prod_exec(&shape);
        let data = Buffer::zeroed(tp, n);
        NDArrayOwned { shape, data }
    }

    pub fn len(&self) -> (n: usize)
        ensures
            n == self.elems().len(),
    {
        self.data.len()
    }

    pub fn tp_exec(&self) -> (t: NDArrayType)
        ensures
            t == self.tp(),
    {
        self.data.elem_type_exec()
    }

    pub fn shape(&self) -> (s: &Vec<usize>)
        ensures
            s@ == self.shape@,
    {
        &self.shape
    }

    /// Reads the element at flat position `idx` in iteration order.
    pub fn get(&self, idx: usize) -> (v: Value)
        requires
            idx < self.elems().len(),
        ensures
            v == self.elems()[idx as int],
    {
        self.data.get(idx)
    }

    pub fn set(&mut self, idx: usize, v: Value)
        requires
            idx < old(self).elems().len(),
            vtype(v) == old(self).tp(),
        ensures
            final(self).tp() == old(self).tp(),
            final(self).shape@ == old(self).shape@,
            final(self).elems() =~= old(self).elems().update(idx as int, v),
    {
        self.data.set(idx, v);
    }

    /// The ascending integers `[0, l)` as a 1-D Int array.
    pub fn iota(l: i64) -> (a: NDArrayOwned)
        requires
            0 <= l <= usize::MAX,
        ensures
            a.wf(),
            a.tp() == NDArrayType::Int,
            a.shape@.len() == 1,
            a.shape@[0] == l,
            a.elems().len() == l,
            forall|k: int| 0 <= k < l ==> a.elems()[k] == Value::Int(k as i64),
    {
        let mut data: Vec<i64> = Vec::new();
        let mut i: i64 = 0;
        while i < l
            invariant
                0 <= i <= l,
                data@.len() == i,
                forall|k: int| 0 <= k < i ==> data@[k] == k as i64,
            decreases l - i,
        {
            data.push(i);
            i += 1;
        }
        let mut shape: Vec<usize> = Vec::new();
        shape.push(l as usize);
        let a = NDArrayOwned { shape, data: Buffer::Int(data) };
        proof {
            crate::shape::lemma_prod_single(a.shape@);
        }
        a
    }

    /// The integers `f, f + s, f + 2s, ...` below `t` as a 1-D Int array.
    pub fn linspace(f: i64, t: i64, s: usize) -> (a: NDArrayOwned)
        requires
            s >= 1,
            linspace_len(f as int, t as int, s as int) <= usize::MAX,
            linspace_len(f as int, t as int, s as int) <= i64::MAX,
        ensures
            a.wf(),
            a.tp() == NDArrayType::Int,
            a.shape@.len() == 1,
            a.shape@[0] == linspace_len(f as int, t as int, s as int),
            a.elems().len() == linspace_len(f as int, t as int, s as int),
            forall|k: int|
                0 <= k < a.elems().len() ==> a.elems()[k] == Value::Int((f + k * s) as i64),
    {
        let mut data: Vec<i64> = Vec::new();
        let ghost total = linspace_len(f as int, t as int, s as int);
        proof {
            lemma_linspace_len(f as int, t as int, s as int);
        }
        if f < t {
            let mut cur: i64 = f;
            proof {
                assert(0int * (s as int) == 0) by (nonlinear_arith);
            }
            loop
                invariant_except_break
                    s >= 1,
                    f < t,
                    total == linspace_len(f as int, t as int, s as int),
                    total <= usize::MAX,
                    data@.len() < total,
                    cur == f + data@.len() * s,
                    cur < t,
                    forall|k: int| 0 <= k < data@.len() ==> data@[k] == (f + k * s) as i64,
                ensures
                    data@.len() == total,
                    forall|k: int| 0 <= k < data@.len() ==> data@[k] == (f + k * s) as i64,
                decreases t - cur,
            {
                proof {
                    lemma_linspace_step(f as int, t as int, s as int, data@.len() as int);
                }
                data.push(cur);
                let next: i128 = cur as i128 + s as i128;
                if next >= t as i128 {
                    break;
                }
                proof {
                    assert(i64::MIN <= next <= i64::MAX);
                }
                cur = next as i64;
            }
        }
        let n = data.len();
        let mut shape: Vec<usize> = Vec::new();
        shape.push(n);
        let a = NDArrayOwned { shape, data: Buffer::Int(data) };
        proof {
            crate::shape::lemma_prod_single(a.shape@);
        }
        a
    }

    /// Element-wise conversion to `tp`; always a fresh Owned array.
    pub fn cast(&self, tp: NDArrayType) -> (a: NDArrayOwned)
        requires
            self.wf(),
        ensures
            a.wf(),
            a.tp() == tp,
            a.shape@ == self.shape@,
            a.elems().len() == self.elems().len(),
            forall|k: int|
                0 <= k < self.elems().len() ==> a.elems()[k] == cast_spec(
                    #[trigger] self.elems()[k],
                    tp,
                ),
    {
        let n = self.data.len();
        let mut data = Buffer::empty(tp);
        let mut i: usize = 0;
        while i < n
            invariant
                0 <= i <= n,
                n == self.elems().len(),
                data.elem_type() == tp,
                data.vals().len() == i,
                forall|k: int|
                    0 <= k < i ==> data.vals()[k] == cast_spec(#[trigger] self.elems()[k], tp),
            decreases n - i,
        {
            let v = self.data.get(i);
            let c = cast_value(&v, tp);
            data.push(c);
            i += 1;
        }
        let shape = self.shape.clone();
        NDArrayOwned { shape, data }
    }

    /// A deep copy: fresh storage, same type, shape and elements.
    pub fn copy(&self) -> (a: NDArrayOwned)
        requires
            self.wf(),
        ensures
            a.wf(),
            a.tp() == self.tp(),
            a.shape@ == self.shape@,
            a.elems() =~= self.elems(),
    {
        let tp = self.tp_exec();
        let n = self.data.len();
        let mut data = Buffer::empty(tp);
        let mut i: usize = 0;
        while i < n
            invariant
                0 <= i <= n,
                n == self.elems().len(),
                data.elem_type() == self.tp(),
                data.vals().len() == i,
                forall|k: int| 0 <= k < i ==> data.vals()[k] == self.elems()[k],
            decreases n - i,
        {
            let v = self.data.get(i);
            data.push(v);
            i += 1;
        }
        let shape = self.shape.clone();
        NDArrayOwned { shape, data }
    }
}

/// How many steps of size `s` fit in `[f, t)`.
pub open spec fn linspace_len(f: int, t: int, s: int) -> int {
    if f >= t {
        0
    } else {
        (t - f - 1) / s + 1
    }
}

proof fn lemma_linspace_len(f: int, t: int, s: int)
    requires
        s >= 1,
    ensures
        linspace_len(f, t, s) >= 0,
        f < t ==> linspace_len(f, t, s) >= 1,
{
    if f < t {
        lemma_div_pos_is_pos_local(t - f - 1, s);
    }
}

proof fn lemma_div_pos_is_pos_local(x: int, d: int)
    requires
        0 <= x,
        0 < d,
    ensures
        x / d >= 0,
{
    vstd::arithmetic::div_mod::lemma_div_pos_is_pos(x, d);
}

/// Taking one more step stays below `t` exactly while fewer than
/// `linspace_len` steps were taken.
proof fn lemma_linspace_step(f: int, t: int, s: int, k: int)
    requires
        s >= 1,
        0 <= k,
        f + k * s < t,
    ensures
        k < linspace_len(f, t, s),
        k + 1 == linspace_len(f, t, s) ==> f + (k + 1) * s >= t,
        k + 1 < linspace_len(f, t, s) ==> f + (k + 1) * s < t,
        f + (k + 1) * s == f + k * s + s,
{
    vstd::arithmetic::mul::lemma_mul_is_distributive_add_other_way(s, k, 1);
    let m = t - f - 1;
    // k*s <= m, so k <= m/s; and the last index is m/s itself.
    assert(k * s <= m);
    vstd::arithmetic::div_mod::lemma_fundamental_div_mod(m, s);
    vstd::arithmetic::div_mod::lemma_mod_division_less_than_divisor(m, s);
    let q = m / s;
    assert(k <= q) by {
        if k > q {
            vstd::arithmetic::mul::lemma_mul_inequality(q + 1, k, s);
            vstd::arithmetic::mul::lemma_mul_is_distributive_add_other_way(s, q, 1);
            vstd::arithmetic::mul::lemma_mul_is_commutative(q, s);
        }
    }
    if k + 1 == linspace_len(f, t, s) {
        // k == q: (q+1)*s > m
        vstd::arithmetic::mul::lemma_mul_is_distributive_add_other_way(s, q, 1);
        vstd::arithmetic::mul::lemma_mul_is_commutative(q, s);
    }
    if k + 1 < linspace_len(f, t, s) {
        // k+1 <= q: (k+1)*s <= q*s <= m
        vstd::arithmetic::mul::lemma_mul_inequality(k + 1, q, s);
        vstd::arithmetic::mul::lemma_mul_is_commutative(q, s);
    }
}

} // verus!
