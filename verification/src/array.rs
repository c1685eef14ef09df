use vstd::prelude::*;
use crate::error::RyndError;
use crate::memory::{Entry, MemoryManager, NDArray};
use crate::owned::{shape_ok, Buffer, NDArrayOwned};
use crate::ops::{
    binop_arrays, binop_scalar, binop_scalar_defined, binop_scalar_seq, binop_seq,
    binop_seq_defined, mask_filter, mask_index, shapes_equal,
};
use crate::shape::prod;
use crate::value::{
    as_int, binop_defined, binop_ok, binop_result_type, cast_spec, cast_value, promote,
    value_type, vtype, BinOp, Value,
};
use crate::view::{full_view, read_view, write_view, ViewDesc};
use crate::NDArrayType;

verus! {

// The Handle Facade: every public operation takes handles, resolves them
// through the Lifetime Manager, and dispatches to the Owned or View
// representation. Value-producing operations return a fresh handle already
// registered with refcount 1; view-producing operations also record the
// dependency edge on the backing array.

/// Checks that a shape's element count fits the machine limits the storage
/// layer needs.
pub fn shape_fits(shape: &Vec<usize>) -> (r: bool)
    ensures
        r == shape_ok(shape@),
{
    let n = shape.len();
    let mut i: usize = 0;
    while i < n
        invariant
            0 <= i <= n,
            n == shape@.len(),
            forall|k: int| 0 <= k < i ==> (#[trigger] shape@[k]) >= 1,
        decreases n - i,
    {
        if shape[i] == 0 {
            proof {
                lemma_zero_prod(shape@, i as int);
            }
            return true;
        }
        i += 1;
    }
    // all dimensions are at least one: the product is monotone in each step
    let mut acc: u128 = 1;
    let mut k: usize = n;
    let lim: u128 = if (usize::MAX as u128) < (i64::MAX as u128) {
        usize::MAX as u128
    } else {
        i64::MAX as u128
    };
    while k > 0
        invariant
            0 <= k <= n,
            n == shape@.len(),
            forall|i2: int| 0 <= i2 < n ==> (#[trigger] shape@[i2]) >= 1,
            acc == crate::shape::sufprod(shape@, k as int),
            acc <= lim,
            lim <= usize::MAX,
            lim <= i64::MAX,
            lim == (if (usize::MAX as u128) < (i64::MAX as u128) {
                usize::MAX as u128
            } else {
                i64::MAX as u128
            }),
        decreases k,
    {
        let d = shape[k - 1] as u128;
        proof {
            crate::shape::lemma_sufprod_nonneg(shape@, k as int);
            assert(d * acc == shape@[k - 1] as int * crate::shape::sufprod(shape@, k as int))
                by (nonlinear_arith)
                requires
                    d == shape@[k - 1],
                    acc == crate::shape::sufprod(shape@, k as int),
            ;
            assert(d * acc <= (u128::MAX as int)) by (nonlinear_arith)
                requires
                    d <= u64::MAX,
                    acc <= u64::MAX,
            ;
        }
        let next = d * acc;
        if next > lim {
            proof {
                lemma_prefix_grows(shape@, (k - 1) as int);
            }
            return false;
        }
        acc = next;
        k -= 1;
    }
    true
}

proof fn lemma_zero_prod(s: Seq<usize>, i: int)
    requires
        0 <= i < s.len(),
        s[i] == 0,
    ensures
        prod(s) == 0,
{
    lemma_zero_prod_suf(s, 0, i);
}

proof fn lemma_zero_prod_suf(s: Seq<usize>, k: int, i: int)
    requires
        0 <= k <= i < s.len(),
        s[i] == 0,
    ensures
        crate::shape::sufprod(s, k) == 0,
    decreases i - k,
{
    if k == i {
        assert(0int * crate::shape::sufprod(s, k + 1) == 0) by (nonlinear_arith);
    } else {
        lemma_zero_prod_suf(s, k + 1, i);
        assert(s[k] as int * 0 == 0) by (nonlinear_arith);
    }
}

/// With all dimensions positive, the full product is at least any suffix.
proof fn lemma_prefix_grows(s: Seq<usize>, k: int)
    requires
        0 <= k <= s.len(),
        forall|i: int| 0 <= i < s.len() ==> (#[trigger] s[i]) >= 1,
    ensures
        prod(s) >= crate::shape::sufprod(s, k),
    decreases k,
{
    if k > 0 {
        lemma_prefix_grows(s, k - 1);
        crate::shape::lemma_sufprod_nonneg(s, k);
        vstd::arithmetic::mul::lemma_mul_inequality(
            1,
            s[k - 1] as int,
            crate::shape::sufprod(s, k),
        );
    }
}

/// Clones a view descriptor.
fn clone_desc(d: &ViewDesc) -> (r: ViewDesc)
    ensures
        r.offset == d.offset,
        r.shape@ == d.shape@,
        r.strides@ == d.strides@,
        r.strides_int() == d.strides_int(),
{
    let mut shape: Vec<usize> = Vec::new();
    let mut i: usize = 0;
    let n = d.shape.len();
    while i < n
        invariant
            0 <= i <= n,
            n == d.shape@.len(),
            shape@.len() == i,
            forall|k: int| 0 <= k < i ==> shape@[k] == d.shape@[k],
        decreases n - i,
    {
        shape.push(d.shape[i]);
        i += 1;
    }
    let mut strides: Vec<i64> = Vec::new();
    let mut j: usize = 0;
    let m = d.strides.len();
    while j < m
        invariant
            0 <= j <= m,
            m == d.strides@.len(),
            strides@.len() == j,
            forall|k: int| 0 <= k < j ==> strides@[k] == d.strides@[k],
        decreases m - j,
    {
        strides.push(d.strides[j]);
        j += 1;
    }
    let r = ViewDesc { offset: d.offset, shape, strides };
    proof {
        assert(r.shape@ =~= d.shape@);
        assert(r.strides@ =~= d.strides@);
    }
    r
}

impl MemoryManager {
    /// Materializes the elements a handle denotes into a fresh Owned array.
    pub fn handle_data(&self, h: usize) -> (r: Result<NDArrayOwned, RyndError>)
        requires
            self.wf(),
        ensures
            !self.live(h as int) ==> r == Err::<NDArrayOwned, RyndError>(RyndError::DeletedHandle),
            self.live(h as int) ==> r is Ok && {
                let a = r.unwrap();
                &&& a.wf()
                &&& a.tp() == self.handle_tp(h as int)
                &&& a.shape@ == self.handle_shape(h as int)
                &&& a.elems() =~= self.handle_elems(h as int)
            },
    {
        if h >= self.slots.len() {
            return Err(RyndError::DeletedHandle);
        }
        match &self.slots[h] {
            Some(e) => match &e.value {
                NDArray::Owned(a) => {
                    proof {
                        assert(self.is_owned(h as int));
                    }
                    Ok(a.copy())
                },
                NDArray::View(v) => {
                    proof {
                        assert(self.is_view(h as int));
                    }
                    let b = v.backing;
                    match &self.slots[b] {
                        Some(be) => match &be.value {
                            NDArray::Owned(arr) => {
                                let data = read_view(&arr.data, &v.desc);
                                let shape = clone_vec_usize(&v.desc.shape);
                                let out = NDArrayOwned { shape, data };
                                proof {
                                    crate::shape::lemma_sufprod_nonneg(v.desc.shape@, 0);
                                    assert(self.root_of(h as int) == v.backing as int);
                                    assert(*arr == self.owned_of(v.backing as int));
                                    assert(out.elems() =~= self.handle_elems(h as int));
                                    assert(out.shape@ == self.handle_shape(h as int));
                                    assert(out.tp() == self.handle_tp(h as int));
                                    assert(out.wf());
                                }
                                Ok(out)
                            },
                            NDArray::View(_) => {
                                proof {
                                    assert(false);
                                }
                                Err(RyndError::DeletedHandle)
                            },
                        },
                        None => {
                            proof {
                                assert(false);
                            }
                            Err(RyndError::DeletedHandle)
                        },
                    }
                },
            },
            None => Err(RyndError::DeletedHandle),
        }
    }

    /// The root Owned handle and window a handle addresses: a View hands back
    /// its backing and descriptor, an Owned array itself and its full view.
    pub fn desc_root(&self, h: usize) -> (r: Result<(usize, ViewDesc), RyndError>)
        requires
            self.wf(),
        ensures
            !self.live(h as int) ==> r == Err::<(usize, ViewDesc), RyndError>(
                RyndError::DeletedHandle,
            ),
            self.live(h as int) ==> r is Ok && {
                let (root, desc) = r.unwrap();
                &&& self.is_owned(root as int)
                &&& root as int == self.root_of(h as int)
                &&& desc.wf(self.owned_of(root as int).elems().len() as int)
                &&& desc.shape@ == self.handle_shape(h as int)
                &&& desc.numel() == self.handle_elems(h as int).len()
                &&& desc.numel() <= usize::MAX
                &&& self.owned_of(root as int).elems().len() <= usize::MAX
                &&& desc.view_seq(self.owned_of(root as int).elems()) =~= self.handle_elems(
                    h as int,
                )
                &&& self.is_view(h as int) ==> {
                    &&& desc.offset == self.view_of(h as int).desc.offset
                    &&& desc.shape@ == self.view_of(h as int).desc.shape@
                    &&& desc.strides@ == self.view_of(h as int).desc.strides@
                    &&& desc.strides_int() == self.view_of(h as int).desc.strides_int()
                }
                &&& self.is_owned(h as int) ==> desc.offset == 0 && (desc.numel() > 0
                    ==> desc.is_contiguous())
            },
    {
        if h >= self.slots.len() {
            return Err(RyndError::DeletedHandle);
        }
        match &self.slots[h] {
            Some(e) => match &e.value {
                NDArray::Owned(a) => {
                    proof {
                        assert(self.is_owned(h as int));
                    }
                    let _buf_len = a.data.len();
                    let d = full_view(a);
                    proof {
                        crate::shape::lemma_sufprod_nonneg(d.shape@, 0);
                    }
                    Ok((h, d))
                },
                NDArray::View(v) => {
                    proof {
                        assert(self.is_view(h as int));
                    }
                    let _buf_len = match &self.slots[v.backing] {
                        Some(be) => match &be.value {
                            NDArray::Owned(arr) => arr.data.len(),
                            NDArray::View(_) => {
                                proof {
                                    assert(false);
                                }
                                0
                            },
                        },
                        None => {
                            proof {
                                assert(false);
                            }
                            0
                        },
                    };
                    let d = clone_desc(&v.desc);
                    proof {
                        crate::shape::lemma_sufprod_nonneg(d.shape@, 0);
                        let b = v.backing as int;
                        assert(self.root_of(h as int) == b);
                        let n = self.owned_of(b).elems().len() as int;
                        assert(v.desc.wf(n));
                        assert(d.wf(n)) by {
                            lemma_desc_fields_wf(&v.desc, &d, n);
                        }
                        assert(d.view_seq(self.owned_of(b).elems()) =~= self.handle_elems(
                            h as int,
                        )) by {
                            lemma_desc_fields_wf(&v.desc, &d, n);
                        }
                    }
                    Ok((v.backing, d))
                },
            },
            None => Err(RyndError::DeletedHandle),
        }
    }

    /// A zero-initialized array: the `new` entry point.
    pub fn create_array(&mut self, tp: NDArrayType, shape: Vec<usize>) -> (r: Result<
        usize,
        RyndError,
    >)
        requires
            old(self).wf(),
            old(self).slots@.len() < usize::MAX,
        ensures
            final(self).wf(),
            !shape_ok(shape@) ==> r == Err::<usize, RyndError>(RyndError::UnsupportedOperation)
                && final(self).slots@ == old(self).slots@,
            shape_ok(shape@) ==> r is Ok && {
                let h = r.unwrap() as int;
                &&& final(self).is_owned(h)
                &&& final(self).handle_tp(h) == tp
                &&& final(self).handle_shape(h) == shape@
                &&& final(self).handle_elems(h) =~= Seq::new(
                    prod(shape@) as nat,
                    |i: int| crate::value::zero_value(tp),
                )
                &&& final(self).refcount(h) == 1
                &&& final(self).slots@.len() == old(self).slots@.len() + 1
                &&& final(self).entry(r.unwrap() as int).views@.len() == 0
                &&& forall|h2: int|
                    0 <= h2 < old(self).slots@.len() ==> final(self).slots@[h2] == old(
                        self,
                    ).slots@[h2]
            },
    {
        if !shape_fits(&shape) {
            return Err(RyndError::UnsupportedOperation);
        }
        let a = NDArrayOwned::new(tp, shape);
        let h = self.register_and_leak(a);
        Ok(h)
    }

    /// Builds an Int array from plain values; the boundary's array_from_ptr.
    pub fn array_from_i64(&mut self, shape: Vec<usize>, data: Vec<i64>) -> (r: Result<
        usize,
        RyndError,
    >)
        requires
            old(self).wf(),
            old(self).slots@.len() < usize::MAX,
        ensures
            final(self).wf(),
            r is Ok ==> shape_ok(shape@) && data@.len() == prod(shape@) && {
                let h = r.unwrap() as int;
                &&& final(self).is_owned(h)
                &&& final(self).handle_tp(h) == NDArrayType::Int
                &&& final(self).handle_shape(h) == shape@
                &&& final(self).handle_elems(h) =~= data@.map_values(|x: i64| Value::Int(x))
                &&& final(self).refcount(h) == 1
                &&& final(self).slots@.len() == old(self).slots@.len() + 1
                &&& final(self).entry(r.unwrap() as int).views@.len() == 0
                &&& forall|h2: int|
                    0 <= h2 < old(self).slots@.len() ==> final(self).slots@[h2] == old(
                        self,
                    ).slots@[h2]
            },
            r is Err ==> final(self).slots@ == old(self).slots@ && (!shape_ok(shape@)
                || data@.len() != prod(shape@)),
    {
        if !shape_fits(&shape) {
            return Err(RyndError::UnsupportedOperation);
        }
        let n = crate::shape::prod_exec(&shape);
        if data.len() != n {
            return Err(RyndError::IncompatibleShape);
        }
        let a = NDArrayOwned { shape, data: Buffer::Int(data) };
        let h = self.register_and_leak(a);
        Ok(h)
    }

    /// Builds a Float array from binary64 bit patterns.
    pub fn array_from_f64_bits(&mut self, shape: Vec<usize>, data: Vec<u64>) -> (r: Result<
        usize,
        RyndError,
    >)
        requires
            old(self).wf(),
            old(self).slots@.len() < usize::MAX,
        ensures
            final(self).wf(),
            r is Ok ==> shape_ok(shape@) && data@.len() == prod(shape@) && {
                let h = r.unwrap() as int;
                &&& final(self).is_owned(h)
                &&& final(self).handle_tp(h) == NDArrayType::Float
                &&& final(self).handle_shape(h) == shape@
                &&& final(self).handle_elems(h) =~= data@.map_values(|x: u64| Value::Float(x))
                &&& final(self).refcount(h) == 1
                &&& final(self).slots@.len() == old(self).slots@.len() + 1
                &&& final(self).entry(r.unwrap() as int).views@.len() == 0
                &&& forall|h2: int|
                    0 <= h2 < old(self).slots@.len() ==> final(self).slots@[h2] == old(
                        self,
                    ).slots@[h2]
            },
            r is Err ==> final(self).slots@ == old(self).slots@ && (!shape_ok(shape@)
                || data@.len() != prod(shape@)),
    {
        if !shape_fits(&shape) {
            return Err(RyndError::UnsupportedOperation);
        }
        let n = crate::shape::prod_exec(&shape);
        if data.len() != n {
            return Err(RyndError::IncompatibleShape);
        }
        let a = NDArrayOwned { shape, data: Buffer::Float(data) };
        let h = self.register_and_leak(a);
        Ok(h)
    }

    /// Builds a Bool array from plain values.
    pub fn array_from_bool(&mut self, shape: Vec<usize>, data: Vec<bool>) -> (r: Result<
        usize,
        RyndError,
    >)
        requires
            old(self).wf(),
            old(self).slots@.len() < usize::MAX,
        ensures
            final(self).wf(),
            r is Ok ==> shape_ok(shape@) && data@.len() == prod(shape@) && {
                let h = r.unwrap() as int;
                &&& final(self).is_owned(h)
                &&& final(self).handle_tp(h) == NDArrayType::Bool
                &&& final(self).handle_shape(h) == shape@
                &&& final(self).handle_elems(h) =~= data@.map_values(|x: bool| Value::Bool(x))
                &&& final(self).refcount(h) == 1
                &&& final(self).slots@.len() == old(self).slots@.len() + 1
                &&& final(self).entry(r.unwrap() as int).views@.len() == 0
                &&& forall|h2: int|
                    0 <= h2 < old(self).slots@.len() ==> final(self).slots@[h2] == old(
                        self,
                    ).slots@[h2]
            },
            r is Err ==> final(self).slots@ == old(self).slots@ && (!shape_ok(shape@)
                || data@.len() != prod(shape@)),
    {
        if !shape_fits(&shape) {
            return Err(RyndError::UnsupportedOperation);
        }
        let n = crate::shape::prod_exec(&shape);
        if data.len() != n {
            return Err(RyndError::IncompatibleShape);
        }
        let a = NDArrayOwned { shape, data: Buffer::Bool(data) };
        let h = self.register_and_leak(a);
        Ok(h)
    }

    /// A brand-new independent deep copy of a handle's elements.
    pub fn copy_array(&mut self, h: usize) -> (r: Result<usize, RyndError>)
        requires
            old(self).wf(),
            old(self).slots@.len() < usize::MAX,
        ensures
            final(self).wf(),
            !old(self).live(h as int) ==> r == Err::<usize, RyndError>(RyndError::DeletedHandle)
                && final(self).slots@ == old(self).slots@,
            old(self).live(h as int) ==> r is Ok && {
                let h2 = r.unwrap() as int;
                &&& final(self).is_owned(h2)
                &&& final(self).handle_tp(h2) == old(self).handle_tp(h as int)
                &&& final(self).handle_shape(h2) == old(self).handle_shape(h as int)
                &&& final(self).handle_elems(h2) =~= old(self).handle_elems(h as int)
                &&& final(self).refcount(h2) == 1
                &&& final(self).slots@.len() == old(self).slots@.len() + 1
                &&& final(self).entry(r.unwrap() as int).views@.len() == 0
                &&& forall|h3: int|
                    0 <= h3 < old(self).slots@.len() ==> final(self).slots@[h3] == old(
                        self,
                    ).slots@[h3]
            },
    {
        let a = match self.handle_data(h) {
            Ok(a) => a,
            Err(e) => {
                return Err(e);
            },
        };
        let h2 = self.register_and_leak(a);
        Ok(h2)
    }

    pub fn len_of(&self, h: usize) -> (r: Result<usize, RyndError>)
        requires
            self.wf(),
        ensures
            !self.live(h as int) ==> r == Err::<usize, RyndError>(RyndError::DeletedHandle),
            self.live(h as int) ==> r == Ok::<usize, RyndError>(
                self.handle_elems(h as int).len() as usize,
            ),
    {
        match self.handle_data(h) {
            Ok(a) => Ok(a.len()),
            Err(e) => Err(e),
        }
    }

    pub fn shape_of(&self, h: usize) -> (r: Result<Vec<usize>, RyndError>)
        requires
            self.wf(),
        ensures
            !self.live(h as int) ==> r == Err::<Vec<usize>, RyndError>(RyndError::DeletedHandle),
            self.live(h as int) ==> r is Ok && r.unwrap()@ == self.handle_shape(h as int),
    {
        match self.handle_data(h) {
            Ok(a) => Ok(a.shape),
            Err(e) => Err(e),
        }
    }

    /// Reads one element by its flat position in iteration order.
    pub fn get_value(&self, h: usize, idx: usize) -> (r: Result<Value, RyndError>)
        requires
            self.wf(),
        ensures
            !self.live(h as int) ==> r == Err::<Value, RyndError>(RyndError::DeletedHandle),
            self.live(h as int) && (idx as int) >= self.handle_elems(h as int).len() ==> r
                == Err::<Value, RyndError>(RyndError::InvalidIndex),
            self.live(h as int) && (idx as int) < self.handle_elems(h as int).len() ==> r == Ok::<
                Value,
                RyndError,
            >(self.handle_elems(h as int)[idx as int]),
    {
        let a = match self.handle_data(h) {
            Ok(a) => a,
            Err(e) => {
                return Err(e);
            },
        };
        if idx >= a.len() {
            return Err(RyndError::InvalidIndex);
        }
        Ok(a.get(idx))
    }

    /// An elementwise binary operation on two handles: equal shapes demanded,
    /// result type by the promotion table.
    pub fn binop(&mut self, op: BinOp, ha: usize, hb: usize) -> (r: Result<usize, RyndError>)
        requires
            old(self).wf(),
            old(self).slots@.len() < usize::MAX,
        ensures
            final(self).wf(),
            r is Err ==> final(self).slots@ == old(self).slots@,
            !(old(self).live(ha as int) && old(self).live(hb as int)) ==> r == Err::<
                usize,
                RyndError,
            >(RyndError::DeletedHandle),
            old(self).live(ha as int) && old(self).live(hb as int) && !(old(self).handle_shape(
                ha as int,
            ) =~= old(self).handle_shape(hb as int)) ==> r == Err::<usize, RyndError>(
                RyndError::IncompatibleShape,
            ),
            old(self).live(ha as int) && old(self).live(hb as int) && old(self).handle_shape(
                ha as int,
            ) =~= old(self).handle_shape(hb as int) && !binop_ok(
                op,
                old(self).handle_tp(ha as int),
                old(self).handle_tp(hb as int),
            ) ==> r == Err::<usize, RyndError>(RyndError::IncompatibleType),
            r is Ok ==> {
                let h = r.unwrap() as int;
                let ea = old(self).handle_elems(ha as int);
                let eb = old(self).handle_elems(hb as int);
                &&& old(self).live(ha as int) && old(self).live(hb as int)
                &&& binop_ok(op, old(self).handle_tp(ha as int), old(self).handle_tp(hb as int))
                &&& final(self).is_owned(h)
                &&& final(self).handle_tp(h) == binop_result_type(
                    op,
                    old(self).handle_tp(ha as int),
                    old(self).handle_tp(hb as int),
                )
                &&& final(self).handle_shape(h) == old(self).handle_shape(ha as int)
                &&& final(self).handle_elems(h) =~= binop_seq(op, ea, eb)
                &&& final(self).slots@.len() == old(self).slots@.len() + 1
                &&& final(self).entry(r.unwrap() as int).views@.len() == 0
                &&& forall|h3: int|
                    0 <= h3 < old(self).slots@.len() ==> final(self).slots@[h3] == old(
                        self,
                    ).slots@[h3]
            },
            old(self).live(ha as int) && old(self).live(hb as int) && old(self).handle_shape(
                ha as int,
            ) =~= old(self).handle_shape(hb as int) && binop_ok(
                op,
                old(self).handle_tp(ha as int),
                old(self).handle_tp(hb as int),
            ) && binop_seq_defined(
                op,
                old(self).handle_elems(ha as int),
                old(self).handle_elems(hb as int),
            ) ==> r is Ok,
    {
        let a = match self.handle_data(ha) {
            Ok(a) => a,
            Err(e) => {
                return Err(e);
            },
        };
        let b = match self.handle_data(hb) {
            Ok(b) => b,
            Err(e) => {
                return Err(e);
            },
        };
        if !shapes_equal(&a.shape, &b.shape) {
            return Err(RyndError::IncompatibleShape);
        }
        // guard the two machine faults of integer division before computing
        if matches!(op, BinOp::Div) || matches!(op, BinOp::Modulo) {
            let pt = promote_exec(a.tp_exec(), b.tp_exec());
            if pt == NDArrayType::Int {
                let n = a.data.len();
                let mut i: usize = 0;
                let mut bad = false;
                while i < n
                    invariant
                        0 <= i <= n,
                        a.wf(),
                        b.wf(),
                        n == a.elems().len(),
                        n == b.elems().len(),
                        promote(a.tp(), b.tp()) == NDArrayType::Int,
                        op == BinOp::Div || op == BinOp::Modulo,
                        !bad ==> forall|k: int|
                            0 <= k < i ==> binop_defined(op, #[trigger] a.elems()[k], b.elems()[k]),
                        bad ==> exists|k: int|
                            0 <= k < i && !binop_defined(op, #[trigger] a.elems()[k], b.elems()[k]),
                    decreases n - i,
                {
                    let x = a.data.get(i);
                    let y = b.data.get(i);
                    let xv = crate::value::as_int_exec(&x);
                    let yv = crate::value::as_int_exec(&y);
                    if !bad && (yv == 0 || (xv == i64::MIN && yv == -1)) {
                        bad = true;
                        proof {
                            assert(!binop_defined(op, a.elems()[i as int], b.elems()[i as int]));
                        }
                    }
                    i += 1;
                }
                if bad {
                    proof {
                        let k = choose|k: int|
                            0 <= k < n && !binop_defined(
                                op,
                                #[trigger] a.elems()[k],
                                b.elems()[k],
                            );
                        assert(!binop_seq_defined(
                            op,
                            old(self).handle_elems(ha as int),
                            old(self).handle_elems(hb as int),
                        ));
                    }
                    return Err(RyndError::UnsupportedOperation);
                }
            }
        }
        proof {
            lemma_binop_defined_cases(op, a.elems(), b.elems(), a.tp(), b.tp());
        }
        let out = match binop_arrays(op, &a, &b) {
            Ok(o) => o,
            Err(e) => {
                return Err(e);
            },
        };
        let h = self.register_and_leak(out);
        Ok(h)
    }

    /// Element-wise conversion to another type: always a fresh Owned array.
    pub fn cast(&mut self, h: usize, tp: NDArrayType) -> (r: Result<usize, RyndError>)
        requires
            old(self).wf(),
            old(self).slots@.len() < usize::MAX,
        ensures
            final(self).wf(),
            !old(self).live(h as int) ==> r == Err::<usize, RyndError>(RyndError::DeletedHandle)
                && final(self).slots@ == old(self).slots@,
            old(self).live(h as int) ==> r is Ok && {
                let h2 = r.unwrap() as int;
                &&& final(self).is_owned(h2)
                &&& final(self).handle_tp(h2) == tp
                &&& final(self).handle_shape(h2) == old(self).handle_shape(h as int)
                &&& final(self).handle_elems(h2) =~= old(self).handle_elems(h as int).map_values(
                    |v: Value| cast_spec(v, tp),
                )
                &&& final(self).slots@.len() == old(self).slots@.len() + 1
                &&& final(self).entry(r.unwrap() as int).views@.len() == 0
                &&& forall|h3: int|
                    0 <= h3 < old(self).slots@.len() ==> final(self).slots@[h3] == old(
                        self,
                    ).slots@[h3]
            },
    {
        let a = match self.handle_data(h) {
            Ok(a) => a,
            Err(e) => {
                return Err(e);
            },
        };
        let out = a.cast(tp);
        let h2 = self.register_and_leak(out);
        proof {
            assert(self.handle_elems(h2 as int) =~= old(self).handle_elems(h as int).map_values(
                |v: Value| cast_spec(v, tp),
            ));
        }
        Ok(h2)
    }
}

/// Descriptors with equal fields form the same windows.
proof fn lemma_desc_fields_wf(a: &ViewDesc, b: &ViewDesc, n: int)
    requires
        a.offset == b.offset,
        a.shape@ == b.shape@,
        a.strides_int() == b.strides_int(),
        a.strides@ == b.strides@,
    ensures
        a.wf(n) ==> b.wf(n),
        forall|j: int| #[trigger] a.addr(j) == b.addr(j),
        forall|buf: Seq<Value>| #[trigger] a.view_seq(buf) == b.view_seq(buf),
        forall|p: int| #[trigger] a.covers(p) <==> b.covers(p),
{
    assert forall|j: int| #[trigger] a.addr(j) == b.addr(j) by {}
    assert forall|p: int| #[trigger] a.covers(p) <==> b.covers(p) by {
        if a.covers(p) {
            let j = choose|j: int| 0 <= j < a.numel() && a.addr(j) == p;
            assert(b.addr(j) == p);
        }
        if b.covers(p) {
            let j = choose|j: int| 0 <= j < b.numel() && b.addr(j) == p;
            assert(a.addr(j) == p);
        }
    }
    assert forall|buf: Seq<Value>| #[trigger] a.view_seq(buf) == b.view_seq(buf) by {
        assert(a.view_seq(buf) =~= b.view_seq(buf));
    }
    if a.wf(n) {
        assert forall|j1: int, j2: int|
            #![trigger b.addr(j1), b.addr(j2)]
            0 <= j1 < j2 < b.numel() implies b.addr(j1) != b.addr(j2) by {
            assert(a.addr(j1) != a.addr(j2));
        }
    }
}

fn promote_exec(a: NDArrayType, b: NDArrayType) -> (t: NDArrayType)
    ensures
        t == promote(a, b),
{
    if a == NDArrayType::Float || b == NDArrayType::Float {
        NDArrayType::Float
    } else if a == NDArrayType::Int || b == NDArrayType::Int {
        NDArrayType::Int
    } else {
        NDArrayType::Bool
    }
}

/// After the divisor guard, every element pair is machine-safe.
proof fn lemma_binop_defined_cases(
    op: BinOp,
    a: Seq<Value>,
    b: Seq<Value>,
    ta: NDArrayType,
    tb: NDArrayType,
)
    requires
        a.len() == b.len(),
        (op == BinOp::Div || op == BinOp::Modulo) && promote(ta, tb) == NDArrayType::Int ==> (
        forall|k: int| 0 <= k < a.len() ==> binop_defined(op, #[trigger] a[k], b[k])),
        forall|k: int| 0 <= k < a.len() ==> vtype(#[trigger] a[k]) == ta,
        forall|k: int| 0 <= k < b.len() ==> vtype(#[trigger] b[k]) == tb,
    ensures
        binop_seq_defined(op, a, b),
{
    assert forall|k: int| 0 <= k < a.len() implies binop_defined(op, #[trigger] a[k], b[k]) by {
        assert(vtype(a[k]) == ta && vtype(b[k]) == tb);
    }
}

fn clone_vec_usize(v: &Vec<usize>) -> (r: Vec<usize>)
    ensures
        r@ == v@,
{
    let mut r: Vec<usize> = Vec::new();
    let n = v.len();
    let mut i: usize = 0;
    while i < n
        invariant
            0 <= i <= n,
            n == v@.len(),
            r@.len() == i,
            forall|k: int| 0 <= k < i ==> r@[k] == v@[k],
        decreases n - i,
    {
        r.push(v[i]);
        i += 1;
    }
    proof {
        assert(r@ =~= v@);
    }
    r
}


/// The inputs on which a concatenation is owed success: live same-type
/// handles of equal rank, a valid axis, equal shapes off that axis, and a
/// result the machine can hold.
pub open spec fn concat_accepted(m: MemoryManager, ha: int, hb: int, dim: int) -> bool {
    let sa = m.handle_shape(ha);
    let sb = m.handle_shape(hb);
    let ax = norm_dim(sa.len() as int, dim);
    &&& m.live(ha)
    &&& m.live(hb)
    &&& m.handle_tp(ha) == m.handle_tp(hb)
    &&& sb.len() == sa.len()
    &&& 0 <= ax < sa.len()
    &&& crate::ops::concat_shapes_ok(sa, sb, ax)
    &&& sa[ax] + sb[ax] <= usize::MAX
    &&& shape_ok(sa.update(ax, (sa[ax] + sb[ax]) as usize))
}

/// A handle's elements read as machine integers.
pub open spec fn int_elems(m: MemoryManager, h: int) -> Seq<i64> {
    m.handle_elems(h).map_values(|v: Value| as_int(v))
}

/// The axis named by a possibly negative index.
pub open spec fn norm_dim(ndim: int, dim: int) -> int {
    if dim < 0 {
        dim + ndim
    } else {
        dim
    }
}

/// Resolves a possibly negative axis index against the rank.
pub fn rynd_normalize_dim(ndim: usize, dim: i64) -> (r: Result<usize, RyndError>)
    ensures
        0 <= norm_dim(ndim as int, dim as int) < ndim ==> r == Ok::<usize, RyndError>(
            norm_dim(ndim as int, dim as int) as usize,
        ),
        !(0 <= norm_dim(ndim as int, dim as int) < ndim) ==> r == Err::<usize, RyndError>(
            RyndError::InvalidIndex,
        ),
{
    let d: i128 = if dim < 0 {
        dim as i128 + ndim as i128
    } else {
        dim as i128
    };
    if 0 <= d && d < ndim as i128 {
        Ok(d as usize)
    } else {
        Err(RyndError::InvalidIndex)
    }
}

/// Checks that an array has a rank within the given bounds.
pub fn rynd_dims_check(ndim: usize, min_dims: Option<usize>, max_dims: Option<usize>) -> (r:
    Result<(), RyndError>)
    ensures
        r is Ok <==> ((min_dims is Some ==> min_dims.unwrap() <= ndim) && (max_dims is Some
            ==> ndim <= max_dims.unwrap())),
        r is Err ==> r == Err::<(), RyndError>(RyndError::InvalidIndex),
{
    match min_dims {
        Some(m) => {
            if ndim < m {
                return Err(RyndError::InvalidIndex);
            }
        },
        None => {},
    }
    match max_dims {
        Some(m) => {
            if ndim > m {
                return Err(RyndError::InvalidIndex);
            }
        },
        None => {},
    }
    Ok(())
}

impl MemoryManager {
    /// Turns a handle's elements into one flat vector of values.
    fn handle_values(&self, h: usize) -> (r: Result<Vec<Value>, RyndError>)
        requires
            self.wf(),
        ensures
            !self.live(h as int) ==> r == Err::<Vec<Value>, RyndError>(RyndError::DeletedHandle),
            self.live(h as int) ==> r is Ok && r.unwrap()@ =~= self.handle_elems(h as int),
    {
        let a = match self.handle_data(h) {
            Ok(a) => a,
            Err(e) => {
                return Err(e);
            },
        };
        Ok(buffer_to_vec(&a.data))
    }

    /// Writes a full set of values through a handle's window, leaving every
    /// buffer cell the window does not alias unchanged, and every other
    /// array untouched.
    fn write_handle(&mut self, h: usize, vals: &Vec<Value>) -> (r: Result<(), RyndError>)
        requires
            old(self).wf(),
            old(self).live(h as int) ==> vals@.len() == old(self).handle_elems(h as int).len(),
            old(self).live(h as int) ==> forall|k: int|
                0 <= k < vals@.len() ==> vtype(#[trigger] vals@[k]) == old(self).handle_tp(
                    h as int,
                ),
        ensures
            final(self).wf(),
            !old(self).live(h as int) ==> r == Err::<(), RyndError>(RyndError::DeletedHandle)
                && final(self).slots@ == old(self).slots@,
            old(self).live(h as int) ==> r is Ok && MemoryManager::write_frame(
                *old(self),
                *final(self),
                h as int,
            ) && final(self).handle_elems(h as int) =~= vals@,
    {
        let (root, desc) = match self.desc_root(h) {
            Ok(p) => p,
            Err(e) => {
                return Err(e);
            },
        };
        proof {
            assert(old(self).is_owned(root as int));
        }
        let entry = self.take_entry(root);
        let rc = entry.refcount;
        let views = entry.views;
        let mut arr = match entry.value {
            NDArray::Owned(a) => a,
            NDArray::View(_) => {
                proof {
                    assert(false);
                }
                vstd::pervasive::unreached()
            },
        };
        write_view(&mut arr.data, &desc, vals);
        let shape = arr.shape;
        let data = arr.data;
        let newa = NDArrayOwned { shape, data };
        self.slots.set(root, Some(Entry { value: NDArray::Owned(newa), refcount: rc, views }));
        proof {
            lemma_update_owned_wf(old(self), self, root as int);
            if old(self).is_view(h as int) {
                assert(self.is_view(h as int)) by {
                    assert(self.slots@[h as int] == old(self).slots@[h as int]);
                }
                assert(self.view_of(h as int) == old(self).view_of(h as int));
                let d2 = self.view_of(h as int).desc;
                lemma_desc_fields_wf(&desc, &d2, self.owned_of(root as int).elems().len() as int);
                assert(self.handle_elems(h as int) =~= vals@);
            } else {
                assert(old(self).is_owned(h as int));
                assert(h == root);
                assert(self.owned_of(h as int) == newa);
                assert forall|j: int|
                    0 <= j < desc.numel() implies desc.view_seq(newa.elems())[j]
                    == newa.elems()[j] by {
                    crate::view::lemma_contig_addr(&desc, j);
                }
                assert(self.handle_elems(h as int) =~= desc.view_seq(newa.elems()));
                assert(self.handle_elems(h as int) =~= vals@);
            }
            // the frame: untouched cells, and every other handle intact
            let pre = *old(self);
            let post = *self;
            if pre.is_view(h as int) {
                let d2 = pre.view_of(h as int).desc;
                lemma_desc_fields_wf(&desc, &d2, pre.owned_of(root as int).elems().len() as int);
            }
            assert forall|p: int|
                0 <= p < pre.owned_of(root as int).elems().len() && !pre.handle_covers(
                    h as int,
                    p,
                ) implies post.owned_of(root as int).elems()[p] == pre.owned_of(
                root as int,
            ).elems()[p] by {
                if pre.is_view(h as int) {
                    assert(!desc.covers(p));
                }
            }
            assert forall|h2: int| #[trigger] pre.live(h2) implies {
                &&& post.live(h2)
                &&& post.handle_shape(h2) == pre.handle_shape(h2)
                &&& post.handle_tp(h2) == pre.handle_tp(h2)
                &&& post.refcount(h2) == pre.refcount(h2)
                &&& post.root_of(h2) == pre.root_of(h2)
                &&& (pre.is_view(h2) ==> post.view_of(h2).desc == pre.view_of(h2).desc)
                &&& (pre.root_of(h2) != root ==> post.handle_elems(h2) == pre.handle_elems(h2))
            } by {
                if h2 != root {
                    assert(post.slots@[h2] == pre.slots@[h2]);
                    if pre.is_view(h2) && pre.root_of(h2) != root {
                        assert(post.owned_of(pre.root_of(h2)) == pre.owned_of(pre.root_of(h2)));
                    }
                }
            }
        }
        Ok(())
    }

    /// Assigns the elements of `src` into `dst`, converting to `dst`'s type;
    /// shapes must match exactly, checked before any mutation.
    pub fn assign(&mut self, dst: usize, src: usize) -> (r: Result<(), RyndError>)
        requires
            old(self).wf(),
        ensures
            final(self).wf(),
            r is Err ==> final(self).slots@ == old(self).slots@,
            !(old(self).live(dst as int) && old(self).live(src as int)) ==> r == Err::<
                (),
                RyndError,
            >(RyndError::DeletedHandle),
            old(self).live(dst as int) && old(self).live(src as int) && !(old(self).handle_shape(
                dst as int,
            ) =~= old(self).handle_shape(src as int)) ==> r == Err::<(), RyndError>(
                RyndError::IncompatibleShape,
            ),
            old(self).live(dst as int) && old(self).live(src as int) && old(self).handle_shape(
                dst as int,
            ) =~= old(self).handle_shape(src as int) ==> r is Ok && MemoryManager::write_frame(
                *old(self),
                *final(self),
                dst as int,
            ) && final(self).handle_elems(dst as int) =~= old(self).handle_elems(
                src as int,
            ).map_values(|v: Value| cast_spec(v, old(self).handle_tp(dst as int))),
    {
        let d = match self.handle_data(dst) {
            Ok(a) => a,
            Err(e) => {
                return Err(e);
            },
        };
        let s = match self.handle_data(src) {
            Ok(a) => a,
            Err(e) => {
                return Err(e);
            },
        };
        if !shapes_equal(&d.shape, &s.shape) {
            return Err(RyndError::IncompatibleShape);
        }
        let tp = d.tp_exec();
        let castarr = s.cast(tp);
        let vals = buffer_to_vec(&castarr.data);
        proof {
            assert(vals@ =~= old(self).handle_elems(src as int).map_values(
                |v: Value| cast_spec(v, old(self).handle_tp(dst as int)),
            ));
        }
        match self.write_handle(dst, &vals) {
            Ok(()) => Ok(()),
            Err(e) => Err(e),
        }
    }

    /// Sets every element of `dst` to the scalar, converted to `dst`'s type.
    pub fn assign_scalar(&mut self, dst: usize, scalar: Value) -> (r: Result<(), RyndError>)
        requires
            old(self).wf(),
        ensures
            final(self).wf(),
            r is Err ==> final(self).slots@ == old(self).slots@,
            !old(self).live(dst as int) ==> r == Err::<(), RyndError>(RyndError::DeletedHandle),
            old(self).live(dst as int) ==> r is Ok && MemoryManager::write_frame(
                *old(self),
                *final(self),
                dst as int,
            ) && final(self).handle_elems(dst as int) =~= Seq::new(
                old(self).handle_elems(dst as int).len(),
                |i: int| cast_spec(scalar, old(self).handle_tp(dst as int)),
            ),
    {
        let d = match self.handle_data(dst) {
            Ok(a) => a,
            Err(e) => {
                return Err(e);
            },
        };
        let tp = d.tp_exec();
        let v = cast_value(&scalar, tp);
        let n = d.len();
        let mut vals: Vec<Value> = Vec::new();
        let mut i: usize = 0;
        while i < n
            invariant
                0 <= i <= n,
                vals@.len() == i,
                forall|k: int| 0 <= k < i ==> vals@[k] == v,
            decreases n - i,
        {
            vals.push(v);
            i += 1;
        }
        match self.write_handle(dst, &vals) {
            Ok(()) => Ok(()),
            Err(e) => Err(e),
        }
    }

    /// Writes `src` into `dst` only where the Bool mask is true; shapes of
    /// all three must match.
    pub fn assign_mask(&mut self, dst: usize, src: usize, mask: usize) -> (r: Result<
        (),
        RyndError,
    >)
        requires
            old(self).wf(),
        ensures
            final(self).wf(),
            r is Err ==> final(self).slots@ == old(self).slots@,
            old(self).live(dst as int) && old(self).live(src as int) && old(self).live(
                mask as int,
            ) && old(self).handle_shape(dst as int) =~= old(self).handle_shape(src as int) && old(
                self,
            ).handle_shape(dst as int) =~= old(self).handle_shape(mask as int) && old(
                self,
            ).handle_tp(mask as int) == NDArrayType::Bool ==> r is Ok
                && MemoryManager::write_frame(*old(self), *final(self), dst as int)
                && final(self).handle_elems(dst as int) =~= Seq::new(
                old(self).handle_elems(dst as int).len(),
                |i: int|
                    if old(self).handle_elems(mask as int)[i] == Value::Bool(true) {
                        cast_spec(
                            old(self).handle_elems(src as int)[i],
                            old(self).handle_tp(dst as int),
                        )
                    } else {
                        old(self).handle_elems(dst as int)[i]
                    },
            ),
    {
        let d = match self.handle_data(dst) {
            Ok(a) => a,
            Err(e) => {
                return Err(e);
            },
        };
        let s = match self.handle_data(src) {
            Ok(a) => a,
            Err(e) => {
                return Err(e);
            },
        };
        let m = match self.handle_data(mask) {
            Ok(a) => a,
            Err(e) => {
                return Err(e);
            },
        };
        if !shapes_equal(&d.shape, &s.shape) {
            return Err(RyndError::IncompatibleShape);
        }
        if !shapes_equal(&d.shape, &m.shape) {
            return Err(RyndError::IncompatibleShape);
        }
        if m.tp_exec() != NDArrayType::Bool {
            return Err(RyndError::InvalidIndex);
        }
        let tp = d.tp_exec();
        let n = d.len();
        let mut vals: Vec<Value> = Vec::new();
        let mut i: usize = 0;
        while i < n
            invariant
                0 <= i <= n,
                d.wf(),
                s.wf(),
                m.wf(),
                n == d.elems().len(),
                n == s.elems().len(),
                n == m.elems().len(),
                tp == d.tp(),
                vals@.len() == i,
                forall|k: int|
                    0 <= k < i ==> vals@[k] == (if m.elems()[k] == Value::Bool(true) {
                        cast_spec(s.elems()[k], tp)
                    } else {
                        d.elems()[k]
                    }),
            decreases n - i,
        {
            let keep = m.data.get(i);
            let w = if keep == Value::Bool(true) {
                let sv = s.data.get(i);
                cast_value(&sv, tp)
            } else {
                d.data.get(i)
            };
            vals.push(w);
            i += 1;
        }
        proof {
            crate::algorithms::lemma_buffer_typed(&d.data);
        }
        match self.write_handle(dst, &vals) {
            Ok(()) => Ok(()),
            Err(e) => Err(e),
        }
    }

    /// Whether a handle's window walks its storage contiguously: Owned
    /// arrays always do, a View when its strides are row-major or it is
    /// empty. Only such handles can be reshaped in place.
    pub open spec fn handle_contig(m: MemoryManager, h: int) -> bool {
        !m.is_view(h) || m.view_of(h).desc.is_contiguous() || m.handle_elems(h).len() == 0
    }

    /// The inputs on which an axis operation is owed success: a valid axis,
    /// a nonempty axis where the operation needs one, no NaN where the key
    /// order is used, a machine-representable axis length, and a result that
    /// fits the machine.
    pub open spec fn axis_op_accepts(
        elems: Seq<Value>,
        shape: Seq<usize>,
        tp: NDArrayType,
        dim: int,
        op: crate::algorithms::AxisOp,
    ) -> bool {
        let ax = norm_dim(shape.len() as int, dim);
        &&& 0 <= ax < shape.len()
        &&& shape[ax] < usize::MAX
        &&& (crate::algorithms::axis_needs_nonempty(op) ==> shape[ax] >= 1)
        &&& (crate::algorithms::axis_needs_order(op) && tp == NDArrayType::Float
            ==> crate::algorithms::lane_no_nan(elems))
        &&& shape_ok(crate::algorithms::axis_out_shape(shape, ax, op))
    }

    /// Applies one axis-generic operation to a handle, producing a fresh
    /// Owned result; sorting in place is `axis_sort`.
    pub fn axis_op(&mut self, h: usize, dim: i64, op: crate::algorithms::AxisOp) -> (r: Result<
        usize,
        RyndError,
    >)
        requires
            old(self).wf(),
            old(self).slots@.len() < usize::MAX,
        ensures
            final(self).wf(),
            r is Err ==> final(self).slots@ == old(self).slots@,
            !old(self).live(h as int) ==> r == Err::<usize, RyndError>(RyndError::DeletedHandle),
            old(self).live(h as int) && !(0 <= norm_dim(
                old(self).handle_shape(h as int).len() as int,
                dim as int,
            ) < old(self).handle_shape(h as int).len()) ==> r == Err::<usize, RyndError>(
                RyndError::InvalidIndex,
            ),
            old(self).live(h as int) && MemoryManager::axis_op_accepts(
                old(self).handle_elems(h as int),
                old(self).handle_shape(h as int),
                old(self).handle_tp(h as int),
                dim as int,
                op,
            ) ==> r is Ok,
            r is Ok ==> {
                let h2 = r.unwrap() as int;
                let ax = norm_dim(old(self).handle_shape(h as int).len() as int, dim as int);
                &&& old(self).live(h as int)
                &&& 0 <= ax < old(self).handle_shape(h as int).len()
                &&& final(self).is_owned(h2)
                &&& final(self).slots@.len() == old(self).slots@.len() + 1
                &&& final(self).entry(r.unwrap() as int).views@.len() == 0
                &&& final(self).handle_shape(h2) =~= crate::algorithms::axis_out_shape(
                    old(self).handle_shape(h as int),
                    ax,
                    op,
                )
                &&& crate::algorithms::axis_semantics(
                    old(self).handle_elems(h as int),
                    old(self).handle_shape(h as int),
                    old(self).handle_tp(h as int),
                    ax,
                    op,
                    final(self).handle_elems(h2),
                )
                &&& final(self).handle_tp(h2) == crate::algorithms::axis_out_type(
                    op,
                    crate::algorithms::axis_work_type(op, old(self).handle_tp(h as int)),
                )
                &&& forall|h3: int|
                    0 <= h3 < old(self).slots@.len() ==> final(self).slots@[h3] == old(
                        self,
                    ).slots@[h3]
            },
    {
        let a = match self.handle_data(h) {
            Ok(a) => a,
            Err(e) => {
                return Err(e);
            },
        };
        let ndim = a.shape.len();
        let ax = match rynd_normalize_dim(ndim, dim) {
            Ok(ax) => ax,
            Err(e) => {
                return Err(e);
            },
        };
        let m = a.shape[ax];
        if m >= usize::MAX {
            return Err(RyndError::UnsupportedOperation);
        }
        let needs_nonempty = matches!(
            op,
            crate::algorithms::AxisOp::Mean
                | crate::algorithms::AxisOp::Var
                | crate::algorithms::AxisOp::Min
                | crate::algorithms::AxisOp::Max
                | crate::algorithms::AxisOp::Argmin
                | crate::algorithms::AxisOp::Argmax
                | crate::algorithms::AxisOp::Diff,
        );
        if needs_nonempty && m == 0 {
            return Err(RyndError::UnsupportedOperation);
        }
        let needs_order = matches!(
            op,
            crate::algorithms::AxisOp::Min
                | crate::algorithms::AxisOp::Max
                | crate::algorithms::AxisOp::Argmin
                | crate::algorithms::AxisOp::Argmax
                | crate::algorithms::AxisOp::Sort
                | crate::algorithms::AxisOp::Argsort,
        );
        if needs_order && a.tp_exec() == NDArrayType::Float {
            if has_nan(&a) {
                return Err(RyndError::UnsupportedOperation);
            }
        }
        // the result must be allocatable
        let reduces = matches!(
            op,
            crate::algorithms::AxisOp::Sum
                | crate::algorithms::AxisOp::Mean
                | crate::algorithms::AxisOp::Var
                | crate::algorithms::AxisOp::Min
                | crate::algorithms::AxisOp::Max
                | crate::algorithms::AxisOp::Argmin
                | crate::algorithms::AxisOp::Argmax,
        );
        let mm: usize = if reduces {
            1
        } else if matches!(op, crate::algorithms::AxisOp::Diff) {
            m - 1
        } else {
            m
        };
        let mut out_shape: Vec<usize> = Vec::new();
        let mut k: usize = 0;
        while k < ndim
            invariant
                0 <= k <= ndim,
                ndim == a.shape@.len(),
                (ax as int) < ndim,
                reduces == crate::algorithms::axis_reduces(op),
                mm == crate::algorithms::axis_out_m(op, a.shape@[ax as int] as int),
                out_shape@.len() == (if reduces && k > ax {
                    k - 1
                } else {
                    k as int
                }),
                forall|i: int|
                    0 <= i < out_shape@.len() ==> (#[trigger] out_shape@[i])
                        == crate::algorithms::axis_out_shape(a.shape@, ax as int, op)[i],
            decreases ndim - k,
        {
            if k == ax {
                if !reduces {
                    out_shape.push(mm);
                }
            } else {
                out_shape.push(a.shape[k]);
            }
            k += 1;
        }
        proof {
            assert(out_shape@ =~= crate::algorithms::axis_out_shape(a.shape@, ax as int, op));
        }
        if !shape_fits(&out_shape) {
            return Err(RyndError::UnsupportedOperation);
        }
        let out = crate::algorithms::axis_apply(&a, ax, op);
        let h2 = self.register_and_leak(out);
        Ok(h2)
    }

    /// Sorts a handle's elements along an axis, writing through its window:
    /// the aliased cells of the backing array change in place.
    pub fn axis_sort(&mut self, h: usize, dim: i64) -> (r: Result<(), RyndError>)
        requires
            old(self).wf(),
        ensures
            final(self).wf(),
            r is Err ==> final(self).slots@ == old(self).slots@,
            !old(self).live(h as int) ==> r == Err::<(), RyndError>(RyndError::DeletedHandle),
            old(self).live(h as int) && !(0 <= norm_dim(
                old(self).handle_shape(h as int).len() as int,
                dim as int,
            ) < old(self).handle_shape(h as int).len()) ==> r == Err::<(), RyndError>(
                RyndError::InvalidIndex,
            ),
            old(self).live(h as int) && MemoryManager::axis_op_accepts(
                old(self).handle_elems(h as int),
                old(self).handle_shape(h as int),
                old(self).handle_tp(h as int),
                dim as int,
                crate::algorithms::AxisOp::Sort,
            ) ==> r is Ok,
            r is Ok ==> {
                let ax = norm_dim(old(self).handle_shape(h as int).len() as int, dim as int);
                &&& old(self).live(h as int)
                &&& MemoryManager::write_frame(*old(self), *final(self), h as int)
                &&& crate::algorithms::axis_semantics(
                    old(self).handle_elems(h as int),
                    old(self).handle_shape(h as int),
                    old(self).handle_tp(h as int),
                    ax,
                    crate::algorithms::AxisOp::Sort,
                    final(self).handle_elems(h as int),
                )
            },
    {
        let a = match self.handle_data(h) {
            Ok(a) => a,
            Err(e) => {
                return Err(e);
            },
        };
        let ndim = a.shape.len();
        let ax = match rynd_normalize_dim(ndim, dim) {
            Ok(ax) => ax,
            Err(e) => {
                return Err(e);
            },
        };
        let m = a.shape[ax];
        if m >= usize::MAX {
            return Err(RyndError::UnsupportedOperation);
        }
        if a.tp_exec() == NDArrayType::Float {
            if has_nan(&a) {
                return Err(RyndError::UnsupportedOperation);
            }
        }
        let mut out_shape: Vec<usize> = Vec::new();
        let mut k: usize = 0;
        while k < ndim
            invariant
                0 <= k <= ndim,
                ndim == a.shape@.len(),
                out_shape@.len() == k,
                forall|i: int| 0 <= i < k ==> out_shape@[i] == a.shape@[i],
            decreases ndim - k,
        {
            out_shape.push(a.shape[k]);
            k += 1;
        }
        proof {
            assert(out_shape@ =~= a.shape@);
            assert(out_shape@ =~= crate::algorithms::axis_out_shape(
                a.shape@,
                ax as int,
                crate::algorithms::AxisOp::Sort,
            ));
        }
        if !shape_fits(&out_shape) {
            return Err(RyndError::UnsupportedOperation);
        }
        let out = crate::algorithms::axis_apply(&a, ax, crate::algorithms::AxisOp::Sort);
        let vals = buffer_to_vec(&out.data);
        proof {
            crate::algorithms::lemma_buffer_typed(&out.data);
            assert(vals@.len() == old(self).handle_elems(h as int).len());
        }
        match self.write_handle(h, &vals) {
            Ok(()) => Ok(()),
            Err(e) => Err(e),
        }
    }
}

/// Whether any element of a Float array is NaN.
fn has_nan(a: &NDArrayOwned) -> (r: bool)
    requires
        a.wf(),
    ensures
        !r <==> crate::algorithms::lane_no_nan(a.elems()),
{
    let n = a.data.len();
    let mut i: usize = 0;
    while i < n
        invariant
            0 <= i <= n,
            a.wf(),
            n == a.elems().len(),
            forall|k: int| 0 <= k < i ==> !crate::value::value_is_nan(#[trigger] a.elems()[k]),
        decreases n - i,
    {
        let v = a.data.get(i);
        let bad = match v {
            Value::Float(x) => crate::floatbits::float_is_nan(x),
            _ => false,
        };
        if bad {
            proof {
                assert(crate::value::value_is_nan(a.elems()[i as int]));
            }
            return true;
        }
        i += 1;
    }
    false
}

fn buffer_to_vec(b: &Buffer) -> (r: Vec<Value>)
    ensures
        r@ =~= b.vals(),
{
    let n = b.len();
    let mut r: Vec<Value> = Vec::new();
    let mut i: usize = 0;
    while i < n
        invariant
            0 <= i <= n,
            n == b.vals().len(),
            r@.len() == i,
            forall|k: int| 0 <= k < i ==> r@[k] == b.vals()[k],
        decreases n - i,
    {
        r.push(b.get(i));
        i += 1;
    }
    r
}

/// Rewriting the buffer of an Owned entry in place, keeping its length,
/// type, shape, views and count, preserves the registry invariants.
proof fn lemma_update_owned_wf(oldm: &MemoryManager, newm: &MemoryManager, root: int)
    requires
        oldm.wf(),
        oldm.is_owned(root),
        newm.slots@.len() == oldm.slots@.len(),
        forall|h2: int|
            0 <= h2 < oldm.slots@.len() && h2 != root ==> newm.slots@[h2] == oldm.slots@[h2],
        newm.is_owned(root),
        newm.entry(root).views@ == oldm.entry(root).views@,
        newm.owned_of(root).wf(),
        newm.owned_of(root).elems().len() == oldm.owned_of(root).elems().len(),
    ensures
        newm.wf(),
{
    assert forall|h: int| #[trigger] newm.is_view(h) implies {
        let b = newm.view_of(h).backing as int;
        &&& newm.is_owned(b)
        &&& newm.view_of(h).desc.wf(newm.owned_of(b).elems().len() as int)
        &&& newm.edge(b, h)
        &&& newm.entry(h).views@.len() == 0
    } by {
        assert(h != root);
        assert(oldm.is_view(h));
        let b = oldm.view_of(h).backing as int;
        assert(oldm.edge(b, h));
        let k = choose|k: int| 0 <= k < oldm.entry(b).views@.len() && oldm.entry(b).views@[k] == h;
        assert(newm.entry(b).views@[k] == h);
    }
    assert forall|h: int| #[trigger] newm.is_owned(h) implies newm.owned_of(h).wf() by {
        if h != root {
            assert(oldm.is_owned(h));
        }
    }
    assert forall|h: int, k: int|
        newm.is_owned(h) && 0 <= k < newm.entry(h).views@.len() implies {
        let w = #[trigger] newm.entry(h).views@[k] as int;
        &&& newm.is_view(w)
        &&& newm.view_of(w).backing == h
    } by {
        assert(oldm.is_owned(h));
        assert(oldm.entry(h).views@[k] == newm.entry(h).views@[k]);
        let w = oldm.entry(h).views@[k] as int;
        assert(oldm.is_view(w));
        assert(w != root);
    }
    assert forall|h: int, k1: int, k2: int|
        #![trigger newm.entry(h).views@[k1], newm.entry(h).views@[k2]]
        newm.is_owned(h) && 0 <= k1 < k2 < newm.entry(h).views@.len() implies newm.entry(
        h,
    ).views@[k1] != newm.entry(h).views@[k2] by {
        assert(oldm.is_owned(h));
        assert(oldm.entry(h).views@[k1] != oldm.entry(h).views@[k2]);
    }
}


/// Whether a view walks its window contiguously, decided at runtime.
fn is_contig(desc: &ViewDesc) -> (r: bool)
    requires
        desc.numel() > 0,
        desc.numel() <= usize::MAX,
        desc.numel() <= i64::MAX,
        desc.strides@.len() == desc.shape@.len(),
    ensures
        r == desc.is_contiguous(),
{
    let sp = crate::shape::suffix_products(&desc.shape);
    let ndim = desc.shape.len();
    let mut k: usize = 0;
    while k < ndim
        invariant
            0 <= k <= ndim,
            ndim == desc.shape@.len(),
            ndim == desc.strides@.len(),
            desc.numel() > 0,
            desc.numel() <= i64::MAX,
            sp@.len() == ndim + 1,
            forall|i: int|
                0 <= i <= ndim ==> (#[trigger] sp@[i]) == crate::shape::sufprod(desc.shape@, i),
            forall|i: int|
                0 <= i < k ==> (#[trigger] desc.strides@[i]) as int == crate::shape::rm_strides(
                    desc.shape@,
                )[i],
        decreases ndim - k,
    {
        proof {
            crate::shape::lemma_sufprod_pos(desc.shape@, k as int + 1);
            crate::shape::lemma_sufprod_le(desc.shape@, 0, k as int + 1);
        }
        let want = sp[k + 1];
        let got = desc.strides[k];
        if got < 0 || (got as u128) != (want as u128) {
            proof {
                assert(desc.strides_int()[k as int] != crate::shape::rm_strides(desc.shape@)[
                    k as int]);
                assert(!desc.is_contiguous());
            }
            return false;
        }
        k += 1;
    }
    proof {
        assert(desc.strides_int() =~= crate::shape::rm_strides(desc.shape@));
    }
    true
}

impl MemoryManager {
    /// Registers the View a construction yields and records its edge.
    fn finish_view(&mut self, root: usize, d: ViewDesc) -> (hv: usize)
        requires
            old(self).wf(),
            old(self).is_owned(root as int),
            d.wf(old(self).owned_of(root as int).elems().len() as int),
            old(self).slots@.len() < usize::MAX,
            old(self).entry(root as int).views@.len() < usize::MAX,
        ensures
            final(self).wf(),
            final(self).is_view(hv as int),
            final(self).view_of(hv as int).backing == root,
            final(self).view_of(hv as int).desc == d,
            final(self).refcount(hv as int) == 1,
            final(self).handle_shape(hv as int) == d.shape@,
            final(self).handle_elems(hv as int) =~= d.view_seq(
                old(self).owned_of(root as int).elems(),
            ),
            final(self).handle_tp(hv as int) == old(self).handle_tp(root as int),
            final(self).slots@.len() == old(self).slots@.len() + 1,
            final(self).entry(root as int).views@ == old(self).entry(root as int).views@.push(hv),
            forall|h2: int|
                0 <= h2 < old(self).slots@.len() && h2 != root ==> final(self).slots@[h2] == old(
                    self,
                ).slots@[h2],
            forall|h2: int|
                old(self).live(h2) ==> final(self).live(h2) && final(self).handle_elems(h2) == old(
                    self,
                ).handle_elems(h2) && final(self).handle_shape(h2) == old(self).handle_shape(h2)
                    && final(self).handle_tp(h2) == old(self).handle_tp(h2)
                    && final(self).refcount(h2) == old(self).refcount(h2),
    {
        let hv = self.register_view(root, d);
        proof {
            assert forall|h2: int| old(self).live(h2) implies final(self).handle_tp(h2) == old(
                self,
            ).handle_tp(h2) && final(self).refcount(h2) == old(self).refcount(h2) by {
                if h2 != root {
                    assert(self.slots@[h2] == old(self).slots@[h2]);
                }
                if old(self).root_of(h2) != root {
                    assert(self.slots@[old(self).root_of(h2)] == old(self).slots@[old(
                        self,
                    ).root_of(h2)]);
                }
            }
        }
        hv
    }

    /// A View over the same elements read in another shape; demands equal
    /// element counts, and a contiguous window when the source is a View.
    pub fn reshape(&mut self, h: usize, new_shape: Vec<usize>) -> (r: Result<usize, RyndError>)
        requires
            old(self).wf(),
            old(self).slots@.len() < usize::MAX,
            old(self).live(h as int) ==> old(self).entry(
                old(self).root_of(h as int),
            ).views@.len() < usize::MAX,
        ensures
            final(self).wf(),
            r is Err ==> final(self).slots@ == old(self).slots@,
            !old(self).live(h as int) ==> r == Err::<usize, RyndError>(RyndError::DeletedHandle),
            old(self).live(h as int) && prod(new_shape@) != old(self).handle_elems(
                h as int,
            ).len() ==> r == Err::<usize, RyndError>(RyndError::IncompatibleShape),
            old(self).live(h as int) && prod(new_shape@) == old(self).handle_elems(
                h as int,
            ).len() && !MemoryManager::handle_contig(*old(self), h as int) ==> r == Err::<
                usize,
                RyndError,
            >(RyndError::UnsupportedOperation),
            old(self).live(h as int) && prod(new_shape@) == old(self).handle_elems(
                h as int,
            ).len() && MemoryManager::handle_contig(*old(self), h as int) ==> r is Ok,
            r is Ok ==> {
                let hv = r.unwrap() as int;
                &&& old(self).live(h as int)
                &&& final(self).is_view(hv)
                &&& MemoryManager::handle_contig(*final(self), hv)
                &&& final(self).root_of(hv) == old(self).root_of(h as int)
                &&& final(self).handle_shape(hv) == new_shape@
                &&& final(self).handle_elems(hv) =~= old(self).handle_elems(h as int)
                &&& final(self).slots@.len() == old(self).slots@.len() + 1
                &&& final(self).entry(r.unwrap() as int).views@.len() == 0
                &&& final(self).entry(final(self).root_of(hv)).views@.len() == old(self).entry(
                    old(self).root_of(h as int),
                ).views@.len() + 1
                &&& forall|h2: int|
                    old(self).live(h2) ==> final(self).live(h2) && final(self).handle_elems(h2)
                        == old(self).handle_elems(h2) && final(self).handle_shape(h2) == old(
                        self,
                    ).handle_shape(h2) && final(self).handle_tp(h2) == old(self).handle_tp(h2)
            },
    {
        let (root, desc) = match self.desc_root(h) {
            Ok(p) => p,
            Err(e) => {
                return Err(e);
            },
        };
        if !shape_fits(&new_shape) {
            proof {
                crate::shape::lemma_sufprod_nonneg(new_shape@, 0);
            }
            return Err(RyndError::IncompatibleShape);
        }
        let total_new = crate::shape::prod_exec(&new_shape);
        let total_old = crate::shape::prod_exec(&desc.shape);
        if total_new != total_old {
            return Err(RyndError::IncompatibleShape);
        }
        if total_old > 0 {
            if !is_contig(&desc) {
                return Err(RyndError::UnsupportedOperation);
            }
        }
        let ghost n = self.owned_of(root as int).elems().len() as int;
        let d = crate::view::reshape_view(&desc, new_shape, Ghost(n));
        proof {
            assert forall|j: int|
                0 <= j < d.numel() implies d.view_seq(self.owned_of(root as int).elems())[j]
                == desc.view_seq(self.owned_of(root as int).elems())[j] by {
                assert(d.addr(j) == desc.addr(j));
            }
        }
        let hv = self.finish_view(root, d);
        proof {
            assert(self.view_of(hv as int).desc == d);
            crate::shape::lemma_sufprod_nonneg(d.shape@, 0);
            assert(self.handle_elems(hv as int).len() == d.numel());
        }
        Ok(hv)
    }

    /// A View with the axes reordered by the given permutation.
    pub fn permute(&mut self, h: usize, perm: &Vec<usize>) -> (r: Result<usize, RyndError>)
        requires
            old(self).wf(),
            old(self).slots@.len() < usize::MAX,
            old(self).live(h as int) ==> old(self).entry(
                old(self).root_of(h as int),
            ).views@.len() < usize::MAX,
        ensures
            final(self).wf(),
            r is Err ==> final(self).slots@ == old(self).slots@,
            !old(self).live(h as int) ==> r == Err::<usize, RyndError>(RyndError::DeletedHandle),
            old(self).live(h as int) && !crate::view::perm_ok(
                perm@,
                old(self).handle_shape(h as int).len() as int,
            ) ==> r == Err::<usize, RyndError>(RyndError::InvalidPermutation),
            old(self).live(h as int) && crate::view::perm_ok(
                perm@,
                old(self).handle_shape(h as int).len() as int,
            ) ==> r is Ok,
            r is Ok ==> {
                let hv = r.unwrap() as int;
                let s = old(self).handle_shape(h as int);
                &&& old(self).live(h as int)
                &&& final(self).slots@.len() == old(self).slots@.len() + 1
                &&& final(self).entry(r.unwrap() as int).views@.len() == 0
                &&& final(self).is_view(hv)
                &&& final(self).root_of(hv) == old(self).root_of(h as int)
                &&& final(self).handle_shape(hv).len() == s.len()
                &&& forall|k: int|
                    0 <= k < perm@.len() ==> final(self).handle_shape(hv)[k] == s[#[trigger] perm@[
                        k] as int]
                &&& forall|j: int|
                    0 <= j < old(self).handle_elems(h as int).len()
                        ==> #[trigger] old(self).handle_elems(h as int)[j]
                        == final(self).handle_elems(hv)[crate::shape::rank_of(
                        final(self).handle_shape(hv),
                        crate::view::reindex(crate::shape::unrank(s, j), perm@),
                    )]
                &&& forall|h2: int|
                    old(self).live(h2) ==> final(self).live(h2) && final(self).handle_elems(h2)
                        == old(self).handle_elems(h2)
            },
    {
        let (root, desc) = match self.desc_root(h) {
            Ok(p) => p,
            Err(e) => {
                return Err(e);
            },
        };
        let ndim = desc.shape.len();
        let inv = match crate::view::check_permutation(perm, ndim) {
            Some(inv) => inv,
            None => {
                return Err(RyndError::InvalidPermutation);
            },
        };
        let ghost n = self.owned_of(root as int).elems().len() as int;
        let d = crate::view::permute_view(&desc, perm, &inv, Ghost(n));
        proof {
            let s = desc.shape@;
            let rs = d.shape@;
            let buf = self.owned_of(root as int).elems();
            // an element of the source sits in the permuted view at the
            // reindexed coordinates
            assert forall|j: int| 0 <= j < desc.numel() implies #[trigger] desc.view_seq(buf)[j]
                == d.view_seq(buf)[crate::shape::rank_of(
                rs,
                crate::view::reindex(crate::shape::unrank(s, j), perm@),
            )] by {
                crate::shape::lemma_unrank_valid(s, j);
                let c = crate::shape::unrank(s, j);
                let cn = crate::view::reindex(c, perm@);
                assert(crate::shape::valid_coords(rs, cn)) by {
                    assert forall|k: int| 0 <= k < rs.len() implies 0 <= #[trigger] cn[k]
                        < rs[k] by {
                        assert(0 <= crate::view::coords_int(perm@)[k] < s.len());
                        assert(cn[k] == c[perm@[k] as int]);
                    }
                }
                lemma_permuted_numel(s, rs, perm@);
                crate::shape::lemma_unrank_rank(rs, cn);
                let j2 = crate::shape::rank_of(rs, cn);
                assert(d.addr(j2) == desc.addr_at(crate::view::reindex(
                    crate::shape::unrank(rs, j2),
                    inv@,
                )));
                assert(crate::shape::unrank(rs, j2) == cn);
                assert(crate::view::reindex(cn, inv@) =~= c) by {
                    assert forall|i: int| 0 <= i < inv@.len() implies crate::view::reindex(
                        cn,
                        inv@,
                    )[i] == c[i] by {
                        assert(cn[inv@[i] as int] == c[perm@[inv@[i] as int] as int]);
                        assert(perm@[inv@[i] as int] == i);
                    }
                }
                assert(desc.addr(j) == desc.addr_at(c));
            }
        }
        let hv = self.finish_view(root, d);
        Ok(hv)
    }

    /// A View iterating one axis backward.
    pub fn axis_reverse(&mut self, h: usize, dim: i64) -> (r: Result<usize, RyndError>)
        requires
            old(self).wf(),
            old(self).slots@.len() < usize::MAX,
            old(self).live(h as int) ==> old(self).entry(
                old(self).root_of(h as int),
            ).views@.len() < usize::MAX,
        ensures
            final(self).wf(),
            r is Err ==> final(self).slots@ == old(self).slots@,
            !old(self).live(h as int) ==> r == Err::<usize, RyndError>(RyndError::DeletedHandle),
            old(self).live(h as int) && !(0 <= norm_dim(
                old(self).handle_shape(h as int).len() as int,
                dim as int,
            ) < old(self).handle_shape(h as int).len()) ==> r == Err::<usize, RyndError>(
                RyndError::InvalidIndex,
            ),
            old(self).live(h as int) && 0 <= norm_dim(
                old(self).handle_shape(h as int).len() as int,
                dim as int,
            ) < old(self).handle_shape(h as int).len() ==> r is Ok,
            r is Ok ==> {
                let hv = r.unwrap() as int;
                let s = old(self).handle_shape(h as int);
                let ax = norm_dim(s.len() as int, dim as int);
                &&& old(self).live(h as int)
                &&& 0 <= ax < s.len()
                &&& final(self).slots@.len() == old(self).slots@.len() + 1
                &&& final(self).entry(r.unwrap() as int).views@.len() == 0
                &&& final(self).is_view(hv)
                &&& final(self).root_of(hv) == old(self).root_of(h as int)
                &&& final(self).handle_shape(hv) == s
                &&& final(self).handle_elems(hv).len() == old(self).handle_elems(h as int).len()
                &&& forall|j: int|
                    0 <= j < old(self).handle_elems(h as int).len()
                        ==> #[trigger] final(self).handle_elems(hv)[j] == old(self).handle_elems(
                        h as int,
                    )[mirror_index(s, ax, j)]
                &&& forall|h2: int|
                    old(self).live(h2) ==> final(self).live(h2) && final(self).handle_elems(h2)
                        == old(self).handle_elems(h2)
            },
    {
        let (root, desc) = match self.desc_root(h) {
            Ok(p) => p,
            Err(e) => {
                return Err(e);
            },
        };
        let ndim = desc.shape.len();
        let ax = match rynd_normalize_dim(ndim, dim) {
            Ok(ax) => ax,
            Err(e) => {
                return Err(e);
            },
        };
        let ghost n = self.owned_of(root as int).elems().len() as int;
        let d = crate::view::reverse_view(&desc, ax, Ghost(n));
        proof {
            let s = desc.shape@;
            let buf = self.owned_of(root as int).elems();
            assert forall|j: int| 0 <= j < d.numel() implies #[trigger] d.view_seq(buf)[j]
                == desc.view_seq(buf)[mirror_index(s, ax as int, j)] by {
                crate::shape::lemma_unrank_valid(s, j);
                let c = crate::shape::unrank(s, j);
                let cm = c.update(ax as int, s[ax as int] - 1 - c[ax as int]);
                assert(crate::shape::valid_coords(s, cm));
                crate::shape::lemma_unrank_rank(s, cm);
                let jm = crate::shape::rank_of(s, cm);
                assert(d.addr(j) == desc.addr_at(cm));
                assert(desc.addr(jm) == desc.addr_at(crate::shape::unrank(s, jm)));
                assert(crate::shape::unrank(s, jm) == cm);
            }
        }
        let hv = self.finish_view(root, d);
        Ok(hv)
    }

    /// A View selecting `first + t * step` on each axis; per-axis triples are
    /// validated, with negative indices wrapped, before anything is built.
    /// Axes without a triple keep their full range.
    pub fn slice(
        &mut self,
        h: usize,
        starts: &Vec<i64>,
        ends: &Vec<i64>,
        steps: &Vec<i64>,
    ) -> (r: Result<usize, RyndError>)
        requires
            old(self).wf(),
            old(self).slots@.len() < usize::MAX,
            old(self).live(h as int) ==> old(self).entry(
                old(self).root_of(h as int),
            ).views@.len() < usize::MAX,
        ensures
            final(self).wf(),
            r is Err ==> final(self).slots@ == old(self).slots@,
            !old(self).live(h as int) ==> r == Err::<usize, RyndError>(RyndError::DeletedHandle),
            old(self).live(h as int) && !(ends@.len() == starts@.len() && steps@.len()
                == starts@.len() && starts@.len() <= old(self).handle_shape(h as int).len())
                ==> r == Err::<usize, RyndError>(RyndError::InvalidIndex),
            old(self).live(h as int) && ends@.len() == starts@.len() && steps@.len()
                == starts@.len() && starts@.len() <= old(self).handle_shape(h as int).len() && (
            forall|k: int|
                0 <= k < starts@.len() ==> slice_args_ok(
                    old(self).handle_shape(h as int)[k] as int,
                    #[trigger] starts@[k] as int,
                    ends@[k] as int,
                    steps@[k] as int,
                )) ==> r is Ok,
            r is Ok ==> {
                let hv = r.unwrap() as int;
                let s = old(self).handle_shape(h as int);
                &&& old(self).live(h as int)
                &&& final(self).slots@.len() == old(self).slots@.len() + 1
                &&& final(self).entry(r.unwrap() as int).views@.len() == 0
                &&& final(self).is_view(hv)
                &&& final(self).root_of(hv) == old(self).root_of(h as int)
                &&& final(self).handle_shape(hv).len() == s.len()
                &&& forall|k: int|
                    0 <= k < s.len() ==> #[trigger] final(self).handle_shape(hv)[k] as int
                        == padded_len(s, starts@, ends@, steps@, k)
                &&& forall|j: int|
                    0 <= j < final(self).handle_elems(hv).len()
                        ==> #[trigger] final(self).handle_elems(hv)[j] == old(self).handle_elems(
                        h as int,
                    )[crate::shape::rank_of(
                        s,
                        slice_source_coords(
                            s,
                            starts@,
                            ends@,
                            steps@,
                            final(self).handle_shape(hv),
                            j,
                        ),
                    )]
                &&& forall|h2: int|
                    old(self).live(h2) ==> final(self).live(h2) && final(self).handle_elems(h2)
                        == old(self).handle_elems(h2)
            },
    {
        let (root, desc) = match self.desc_root(h) {
            Ok(p) => p,
            Err(e) => {
                return Err(e);
            },
        };
        let ndim = desc.shape.len();
        let naxes = starts.len();
        if ends.len() != naxes || steps.len() != naxes || naxes > ndim {
            return Err(RyndError::InvalidIndex);
        }
        let mut first: Vec<usize> = Vec::new();
        let mut lens: Vec<usize> = Vec::new();
        let mut stepv: Vec<i64> = Vec::new();
        let mut k: usize = 0;
        while k < ndim
            invariant
                0 <= k <= ndim,
                ndim == desc.shape@.len(),
                naxes <= ndim,
                naxes == starts@.len(),
                naxes == ends@.len(),
                naxes == steps@.len(),
                self.wf(),
                self.slots@ == old(self).slots@,
                old(self).live(h as int),
                desc.shape@ == old(self).handle_shape(h as int),
                first@.len() == k,
                lens@.len() == k,
                stepv@.len() == k,
                forall|i: int|
                    0 <= i < k ==> crate::view::slice_axis_ok(
                        desc.shape@[i],
                        first@[i],
                        #[trigger] lens@[i],
                        stepv@[i],
                    ),
                forall|i: int|
                    0 <= i < k ==> (#[trigger] lens@[i]) as int == padded_len(
                        desc.shape@,
                        starts@,
                        ends@,
                        steps@,
                        i,
                    ),
                forall|i: int|
                    0 <= i < k ==> (#[trigger] first@[i]) as int == padded_first(
                        desc.shape@,
                        starts@,
                        ends@,
                        steps@,
                        i,
                    ),
                forall|i: int|
                    0 <= i < k ==> (#[trigger] stepv@[i]) as int == padded_step(
                        starts@,
                        steps@,
                        i,
                    ),
            decreases ndim - k,
        {
            let d = desc.shape[k];
            if k < naxes {
                let (f, m) = match rynd_slice_axis(d, starts[k], ends[k], steps[k]) {
                    Ok(p) => p,
                    Err(e) => {
                        return Err(e);
                    },
                };
                first.push(f);
                lens.push(m);
                stepv.push(steps[k]);
            } else {
                // untouched axis: the full range
                first.push(0);
                lens.push(d);
                stepv.push(1);
                proof {
                    assert(crate::view::slice_axis_ok(desc.shape@[k as int], 0, d, 1i64)) by {
                        if d > 0 {
                            assert((d - 1) as int * 1int == d - 1) by (nonlinear_arith);
                        }
                    }
                }
            }
            k += 1;
        }
        let ghost n = self.owned_of(root as int).elems().len() as int;
        let d2 = crate::view::slice_view(&desc, &first, &lens, &stepv, Ghost(n));
        let ghost bufg = self.owned_of(root as int).elems();
        let hv = self.finish_view(root, d2);
        proof {
            let s = desc.shape@;
            assert(bufg == old(self).owned_of(root as int).elems()) by {
                assert(old(self).slots@[root as int] == old(self).slots@[root as int]);
            }
            assert(old(self).handle_elems(h as int) == desc.view_seq(bufg));
            assert(self.handle_elems(hv as int) == d2.view_seq(bufg));
            let firstI = crate::view::coords_int(first@);
            let stepsI = crate::view::steps_int(stepv@);
            assert forall|j: int|
                0 <= j < self.handle_elems(hv as int).len() implies #[trigger] self.handle_elems(
                hv as int,
            )[j] == old(self).handle_elems(h as int)[crate::shape::rank_of(
                s,
                slice_source_coords(
                    s,
                    starts@,
                    ends@,
                    steps@,
                    self.handle_shape(hv as int),
                    j,
                ),
            )] by {
                crate::shape::lemma_sufprod_nonneg(d2.shape@, 0);
                assert(self.handle_elems(hv as int).len() == d2.numel());
                assert(self.handle_elems(hv as int)[j] == d2.view_seq(bufg)[j]);
                crate::shape::lemma_unrank_valid(d2.shape@, j);
                let c = crate::shape::unrank(d2.shape@, j);
                let srcc = crate::view::slice_src(firstI, stepsI, c);
                assert(srcc =~= slice_source_coords(
                    s,
                    starts@,
                    ends@,
                    steps@,
                    self.handle_shape(hv as int),
                    j,
                ));
                assert(crate::shape::valid_coords(s, srcc)) by {
                    assert forall|kk: int| 0 <= kk < s.len() implies 0 <= #[trigger] srcc[kk]
                        < s[kk] by {
                        assert(crate::view::slice_axis_ok(
                            s[kk],
                            first@[kk],
                            lens@[kk],
                            stepv@[kk],
                        ));
                        crate::view::lemma_slice_coord_valid(
                            s[kk] as int,
                            firstI[kk],
                            lens@[kk] as int,
                            stepsI[kk],
                            c[kk],
                        );
                    }
                }
                assert(prod(s) > 0) by {
                    assert forall|kk: int| 0 <= kk < s.len() implies #[trigger] lens@[kk]
                        <= s[kk] by {
                        assert(crate::view::slice_axis_ok(
                            s[kk],
                            first@[kk],
                            lens@[kk],
                            stepv@[kk],
                        ));
                    }
                    crate::view::lemma_prod_pointwise_le(lens@, s, 0);
                }
                crate::shape::lemma_unrank_rank(s, srcc);
                let jm = crate::shape::rank_of(s, srcc);
                assert(d2.addr(j) == desc.addr_at(srcc));
                assert(desc.addr(jm) == desc.addr_at(crate::shape::unrank(s, jm)));
                assert(crate::shape::unrank(s, jm) == srcc);
                assert(d2.view_seq(bufg)[j] == bufg[d2.addr(j)]);
                assert(desc.view_seq(bufg)[jm] == bufg[desc.addr(jm)]);
            }
        }
        Ok(hv)
    }

    /// The dense matrix product of two rank-2 handles.
    pub fn matmul(&mut self, ha: usize, hb: usize) -> (r: Result<usize, RyndError>)
        requires
            old(self).wf(),
            old(self).slots@.len() < usize::MAX,
        ensures
            final(self).wf(),
            r is Err ==> final(self).slots@ == old(self).slots@,
            !(old(self).live(ha as int) && old(self).live(hb as int)) ==> r == Err::<
                usize,
                RyndError,
            >(RyndError::DeletedHandle),
            old(self).live(ha as int) && old(self).live(hb as int) && !crate::ops::mm_shapes_ok(
                old(self).handle_shape(ha as int),
                old(self).handle_shape(hb as int),
            ) ==> r == Err::<usize, RyndError>(RyndError::IncompatibleShape),
            r is Ok ==> {
                let h2 = r.unwrap() as int;
                let rt = crate::ops::mm_type(
                    old(self).handle_tp(ha as int),
                    old(self).handle_tp(hb as int),
                );
                let ca = old(self).handle_elems(ha as int).map_values(
                    |v: Value| cast_spec(v, rt),
                );
                let cb = old(self).handle_elems(hb as int).map_values(
                    |v: Value| cast_spec(v, rt),
                );
                let rows = old(self).handle_shape(ha as int)[0] as int;
                let kdim = old(self).handle_shape(ha as int)[1] as int;
                let cols = old(self).handle_shape(hb as int)[1] as int;
                &&& final(self).is_owned(h2)
                &&& final(self).handle_tp(h2) == rt
                &&& final(self).handle_shape(h2).len() == 2
                &&& final(self).handle_shape(h2)[0] as int == rows
                &&& final(self).handle_shape(h2)[1] as int == cols
                &&& forall|i: int, jj: int|
                    0 <= i < rows && 0 <= jj < cols
                        ==> #[trigger] final(self).handle_elems(h2)[i * cols + jj]
                        == crate::ops::mm_cell(rt, ca, cb, kdim, cols, i, jj, 0)
                &&& final(self).slots@.len() == old(self).slots@.len() + 1
                &&& final(self).entry(r.unwrap() as int).views@.len() == 0
                &&& forall|h3: int|
                    0 <= h3 < old(self).slots@.len() ==> final(self).slots@[h3] == old(
                        self,
                    ).slots@[h3]
            },
            old(self).live(ha as int) && old(self).live(hb as int) && crate::ops::mm_shapes_ok(
                old(self).handle_shape(ha as int),
                old(self).handle_shape(hb as int),
            ) && old(self).handle_shape(ha as int)[0] * old(self).handle_shape(hb as int)[1]
                <= i64::MAX && old(self).handle_shape(ha as int)[0] * old(self).handle_shape(
                hb as int,
            )[1] <= usize::MAX ==> r is Ok,
    {
        let a = match self.handle_data(ha) {
            Ok(a) => a,
            Err(e) => {
                return Err(e);
            },
        };
        let b = match self.handle_data(hb) {
            Ok(b) => b,
            Err(e) => {
                return Err(e);
            },
        };
        if a.shape.len() != 2 || b.shape.len() != 2 || a.shape[1] != b.shape[0] {
            return Err(RyndError::IncompatibleShape);
        }
        let rc = match a.shape[0].checked_mul(b.shape[1]) {
            Some(v) => v,
            None => {
                return Err(RyndError::UnsupportedOperation);
            },
        };
        if (rc as u128) > (i64::MAX as u128) {
            return Err(RyndError::UnsupportedOperation);
        }
        let out = match crate::ops::matmul(&a, &b) {
            Ok(o) => o,
            Err(e) => {
                return Err(e);
            },
        };
        let h2 = self.register_and_leak(out);
        Ok(h2)
    }

    /// Stacks two same-shape, same-type handles along a new axis.
    pub fn stack(&mut self, ha: usize, hb: usize, axis: usize) -> (r: Result<usize, RyndError>)
        requires
            old(self).wf(),
            old(self).slots@.len() < usize::MAX,
        ensures
            final(self).wf(),
            r is Err ==> final(self).slots@ == old(self).slots@,
            !(old(self).live(ha as int) && old(self).live(hb as int)) ==> r == Err::<
                usize,
                RyndError,
            >(RyndError::DeletedHandle),
            old(self).live(ha as int) && old(self).live(hb as int) && old(self).handle_tp(
                ha as int,
            ) != old(self).handle_tp(hb as int) ==> r == Err::<usize, RyndError>(
                RyndError::IncompatibleType,
            ),
            old(self).live(ha as int) && old(self).live(hb as int) && old(self).handle_tp(
                ha as int,
            ) == old(self).handle_tp(hb as int) && !(old(self).handle_shape(ha as int) =~= old(
                self,
            ).handle_shape(hb as int)) ==> r == Err::<usize, RyndError>(
                RyndError::IncompatibleShape,
            ),
            old(self).live(ha as int) && old(self).live(hb as int) && old(self).handle_tp(
                ha as int,
            ) == old(self).handle_tp(hb as int) && old(self).handle_shape(ha as int) =~= old(
                self,
            ).handle_shape(hb as int) && axis as int <= old(self).handle_shape(ha as int).len()
                && old(self).handle_shape(ha as int).len() < usize::MAX && 2 * old(
                self,
            ).handle_elems(ha as int).len() <= i64::MAX && 2 * old(self).handle_elems(
                ha as int,
            ).len() <= usize::MAX ==> r is Ok,
            r is Ok ==> {
                let h2 = r.unwrap() as int;
                let inner = crate::shape::sufprod(old(self).handle_shape(ha as int), axis as int);
                &&& final(self).slots@.len() == old(self).slots@.len() + 1
                &&& final(self).entry(r.unwrap() as int).views@.len() == 0
                &&& final(self).is_owned(h2)
                &&& final(self).handle_tp(h2) == old(self).handle_tp(ha as int)
                &&& final(self).handle_shape(h2) =~= old(self).handle_shape(ha as int).take(
                    axis as int,
                ) + seq![2usize] + old(self).handle_shape(ha as int).skip(axis as int)
                &&& final(self).handle_elems(h2).len() == 2 * old(self).handle_elems(
                    ha as int,
                ).len()
                &&& forall|j: int|
                    0 <= j < final(self).handle_elems(h2).len()
                        ==> #[trigger] final(self).handle_elems(h2)[j]
                        == crate::ops::interleave_val(
                        old(self).handle_elems(ha as int),
                        old(self).handle_elems(hb as int),
                        inner,
                        inner,
                        j,
                    )
            },
    {
        let a = match self.handle_data(ha) {
            Ok(a) => a,
            Err(e) => {
                return Err(e);
            },
        };
        let b = match self.handle_data(hb) {
            Ok(b) => b,
            Err(e) => {
                return Err(e);
            },
        };
        if a.tp_exec() != b.tp_exec() {
            return Err(RyndError::IncompatibleType);
        }
        if !shapes_equal(&a.shape, &b.shape) {
            return Err(RyndError::IncompatibleShape);
        }
        if axis > a.shape.len() {
            return Err(RyndError::InvalidIndex);
        }
        if a.shape.len() >= usize::MAX {
            return Err(RyndError::UnsupportedOperation);
        }
        let n = a.data.len();
        if n > (usize::MAX / 2) {
            return Err(RyndError::UnsupportedOperation);
        }
        if (2 * n) as u128 > i64::MAX as u128 {
            return Err(RyndError::UnsupportedOperation);
        }
        let out = match crate::ops::stack_axis(&a, &b, axis) {
            Ok(o) => o,
            Err(e) => {
                return Err(e);
            },
        };
        let h2 = self.register_and_leak(out);
        Ok(h2)
    }

    /// Joins two same-type handles along an existing axis.
    pub fn concat(&mut self, ha: usize, hb: usize, dim: i64) -> (r: Result<usize, RyndError>)
        requires
            old(self).wf(),
            old(self).slots@.len() < usize::MAX,
        ensures
            final(self).wf(),
            r is Err ==> final(self).slots@ == old(self).slots@,
            !(old(self).live(ha as int) && old(self).live(hb as int)) ==> r == Err::<
                usize,
                RyndError,
            >(RyndError::DeletedHandle),
            old(self).live(ha as int) && old(self).live(hb as int) && old(self).handle_tp(
                ha as int,
            ) != old(self).handle_tp(hb as int) ==> r == Err::<usize, RyndError>(
                RyndError::IncompatibleType,
            ),
            old(self).live(ha as int) && old(self).live(hb as int) && old(self).handle_tp(
                ha as int,
            ) == old(self).handle_tp(hb as int) && old(self).handle_shape(hb as int).len() != old(
                self,
            ).handle_shape(ha as int).len() ==> r == Err::<usize, RyndError>(
                RyndError::IncompatibleShape,
            ),
            old(self).live(ha as int) && old(self).live(hb as int) && old(self).handle_tp(
                ha as int,
            ) == old(self).handle_tp(hb as int) && old(self).handle_shape(hb as int).len() == old(
                self,
            ).handle_shape(ha as int).len() && !(0 <= norm_dim(
                old(self).handle_shape(ha as int).len() as int,
                dim as int,
            ) < old(self).handle_shape(ha as int).len()) ==> r == Err::<usize, RyndError>(
                RyndError::InvalidIndex,
            ),
            old(self).live(ha as int) && old(self).live(hb as int) && old(self).handle_tp(
                ha as int,
            ) == old(self).handle_tp(hb as int) && old(self).handle_shape(hb as int).len() == old(
                self,
            ).handle_shape(ha as int).len() && 0 <= norm_dim(
                old(self).handle_shape(ha as int).len() as int,
                dim as int,
            ) < old(self).handle_shape(ha as int).len() && old(self).handle_shape(ha as int)[
                norm_dim(old(self).handle_shape(ha as int).len() as int, dim as int)] + old(
                self,
            ).handle_shape(hb as int)[norm_dim(
                old(self).handle_shape(ha as int).len() as int,
                dim as int,
            )] <= usize::MAX && shape_ok(
                old(self).handle_shape(ha as int).update(
                    norm_dim(old(self).handle_shape(ha as int).len() as int, dim as int),
                    (old(self).handle_shape(ha as int)[norm_dim(
                        old(self).handle_shape(ha as int).len() as int,
                        dim as int,
                    )] + old(self).handle_shape(hb as int)[norm_dim(
                        old(self).handle_shape(ha as int).len() as int,
                        dim as int,
                    )]) as usize,
                ),
            ) && !crate::ops::concat_shapes_ok(
                old(self).handle_shape(ha as int),
                old(self).handle_shape(hb as int),
                norm_dim(old(self).handle_shape(ha as int).len() as int, dim as int),
            ) ==> r == Err::<usize, RyndError>(RyndError::IncompatibleShape),
            concat_accepted(*old(self), ha as int, hb as int, dim as int) ==> r is Ok,
            r is Ok ==> {
                let h2 = r.unwrap() as int;
                let sa = old(self).handle_shape(ha as int);
                let sb = old(self).handle_shape(hb as int);
                let ax = norm_dim(sa.len() as int, dim as int);
                let block_a = prod(sa.skip(ax));
                let block_b = prod(sb.skip(ax));
                &&& final(self).slots@.len() == old(self).slots@.len() + 1
                &&& final(self).entry(r.unwrap() as int).views@.len() == 0
                &&& final(self).is_owned(h2)
                &&& final(self).handle_tp(h2) == old(self).handle_tp(ha as int)
                &&& final(self).handle_shape(h2) =~= sa.update(
                    ax,
                    (sa[ax] + sb[ax]) as usize,
                )
                &&& final(self).handle_elems(h2).len() == old(self).handle_elems(ha as int).len()
                    + old(self).handle_elems(hb as int).len()
                &&& forall|j: int|
                    0 <= j < final(self).handle_elems(h2).len()
                        ==> #[trigger] final(self).handle_elems(h2)[j]
                        == crate::ops::interleave_val(
                        old(self).handle_elems(ha as int),
                        old(self).handle_elems(hb as int),
                        block_a,
                        block_b,
                        j,
                    )
            },
    {
        let a = match self.handle_data(ha) {
            Ok(a) => a,
            Err(e) => {
                return Err(e);
            },
        };
        let b = match self.handle_data(hb) {
            Ok(b) => b,
            Err(e) => {
                return Err(e);
            },
        };
        if a.tp_exec() != b.tp_exec() {
            return Err(RyndError::IncompatibleType);
        }
        let ndim = a.shape.len();
        if b.shape.len() != ndim {
            return Err(RyndError::IncompatibleShape);
        }
        let ax = match rynd_normalize_dim(ndim, dim) {
            Ok(ax) => ax,
            Err(e) => {
                return Err(e);
            },
        };
        let joined = match a.shape[ax].checked_add(b.shape[ax]) {
            Some(v) => v,
            None => {
                return Err(RyndError::UnsupportedOperation);
            },
        };
        let mut outshape = clone_vec_usize(&a.shape);
        outshape.set(ax, joined);
        if !shape_fits(&outshape) {
            return Err(RyndError::UnsupportedOperation);
        }
        proof {
            crate::ops::lemma_prod_split(outshape@, ax as int);
            assert(outshape@.take(ax as int) =~= a.shape@.take(ax as int));
            crate::ops::lemma_concat_result_shape(a.shape@, b.shape@, ax as int, outshape@);
        }
        let out = match crate::ops::concat_axis(&a, &b, ax) {
            Ok(o) => o,
            Err(e) => {
                return Err(e);
            },
        };
        let h2 = self.register_and_leak(out);
        Ok(h2)
    }

    /// Indexing by another array. A Bool index of the same shape selects by
    /// mask into a 1-D result; a 1-D Int index gathers whole rows along the
    /// first axis; a 2-D Int index reads its rows as full coordinate tuples,
    /// one selected element per row; negative indices wrap; a Float index or
    /// any other rank is refused.
    #[verifier::rlimit(40)]
    pub fn index(&mut self, h: usize, hidx: usize) -> (r: Result<usize, RyndError>)
        requires
            old(self).wf(),
            old(self).slots@.len() < usize::MAX,
        ensures
            final(self).wf(),
            r is Err ==> final(self).slots@ == old(self).slots@,
            !(old(self).live(h as int) && old(self).live(hidx as int)) ==> r == Err::<
                usize,
                RyndError,
            >(RyndError::DeletedHandle),
            old(self).live(h as int) && old(self).live(hidx as int) && old(self).handle_tp(
                hidx as int,
            ) == NDArrayType::Float ==> r == Err::<usize, RyndError>(RyndError::InvalidIndex),
            old(self).live(h as int) && old(self).live(hidx as int) && old(self).handle_tp(
                hidx as int,
            ) == NDArrayType::Bool && !(old(self).handle_shape(hidx as int) =~= old(
                self,
            ).handle_shape(h as int)) ==> r == Err::<usize, RyndError>(RyndError::InvalidIndex),
            old(self).live(h as int) && old(self).live(hidx as int) && old(self).handle_tp(
                hidx as int,
            ) == NDArrayType::Bool && old(self).handle_shape(hidx as int) =~= old(
                self,
            ).handle_shape(h as int) ==> r is Ok && {
                let h2 = r.unwrap() as int;
                &&& final(self).is_owned(h2)
                &&& final(self).handle_tp(h2) == old(self).handle_tp(h as int)
                &&& final(self).handle_shape(h2).len() == 1
                &&& final(self).handle_elems(h2) =~= mask_filter(
                    old(self).handle_elems(h as int),
                    old(self).handle_elems(hidx as int),
                )
            },
            old(self).live(h as int) && old(self).live(hidx as int) && old(self).handle_tp(
                hidx as int,
            ) == NDArrayType::Int && (old(self).handle_shape(hidx as int).len() != 1 && old(
                self,
            ).handle_shape(hidx as int).len() != 2) ==> r == Err::<usize, RyndError>(
                RyndError::InvalidIndex,
            ),
            old(self).live(h as int) && old(self).live(hidx as int) && old(self).handle_tp(
                hidx as int,
            ) == NDArrayType::Int && old(self).handle_shape(hidx as int).len() == 1 && old(
                self,
            ).handle_shape(h as int).len() == 0 ==> r == Err::<usize, RyndError>(
                RyndError::InvalidIndex,
            ),
            old(self).live(h as int) && old(self).live(hidx as int) && old(self).handle_tp(
                hidx as int,
            ) == NDArrayType::Int && old(self).handle_shape(hidx as int).len() == 2 && old(
                self,
            ).handle_shape(hidx as int)[1] != old(self).handle_shape(h as int).len() ==> r
                == Err::<usize, RyndError>(RyndError::InvalidIndex),
            r is Ok && old(self).handle_tp(hidx as int) == NDArrayType::Int && old(
                self,
            ).handle_shape(hidx as int).len() == 1 ==> {
                let h2 = r.unwrap() as int;
                let rowsize = crate::shape::sufprod(old(self).handle_shape(h as int), 1);
                let d0 = old(self).handle_shape(h as int)[0] as int;
                &&& final(self).is_owned(h2)
                &&& final(self).handle_tp(h2) == old(self).handle_tp(h as int)
                &&& final(self).handle_shape(h2) =~= old(self).handle_shape(h as int).update(
                    0,
                    old(self).handle_shape(hidx as int)[0],
                )
                &&& forall|r2: int, t: int|
                    0 <= r2 < old(self).handle_elems(hidx as int).len() && 0 <= t < rowsize
                        ==> #[trigger] final(self).handle_elems(h2)[r2 * rowsize + t] == old(
                        self,
                    ).handle_elems(h as int)[crate::ops::wrap_index(
                        as_int(old(self).handle_elems(hidx as int)[r2]) as int,
                        d0,
                    ) * rowsize + t]
            },
            r is Ok && old(self).handle_tp(hidx as int) == NDArrayType::Int && old(
                self,
            ).handle_shape(hidx as int).len() == 2 ==> {
                let h2 = r.unwrap() as int;
                let s = old(self).handle_shape(h as int);
                let flat = old(self).handle_elems(hidx as int).map_values(|v: Value| as_int(v));
                let nrows = old(self).handle_shape(hidx as int)[0] as int;
                &&& final(self).is_owned(h2)
                &&& final(self).handle_tp(h2) == old(self).handle_tp(h as int)
                &&& final(self).handle_shape(h2) =~= seq![
                    old(self).handle_shape(hidx as int)[0],
                ]
                &&& forall|r2: int|
                    0 <= r2 < nrows ==> #[trigger] final(self).handle_elems(h2)[r2] == old(
                        self,
                    ).handle_elems(h as int)[crate::shape::rank_of(
                        s,
                        crate::ops::coord_row(flat, s, r2),
                    )]
            },
            r is Ok ==> final(self).slots@.len() == old(self).slots@.len() + 1 && forall|h3: int|
                0 <= h3 < old(self).slots@.len() ==> final(self).slots@[h3] == old(
                    self,
                ).slots@[h3],
            old(self).live(h as int) && old(self).live(hidx as int) && old(self).handle_tp(
                hidx as int,
            ) == NDArrayType::Int && old(self).handle_shape(hidx as int).len() == 1 && old(
                self,
            ).handle_shape(h as int).len() >= 1 && crate::shape::sufprod(
                old(self).handle_shape(h as int),
                1,
            ) <= usize::MAX && old(self).handle_elems(hidx as int).len() * crate::shape::sufprod(
                old(self).handle_shape(h as int),
                1,
            ) <= i64::MAX && old(self).handle_elems(hidx as int).len() * crate::shape::sufprod(
                old(self).handle_shape(h as int),
                1,
            ) <= usize::MAX && (forall|r2: int|
                0 <= r2 < old(self).handle_elems(hidx as int).len()
                    ==> 0 <= crate::ops::wrap_index(
                    as_int(#[trigger] old(self).handle_elems(hidx as int)[r2]) as int,
                    old(self).handle_shape(h as int)[0] as int,
                ) < old(self).handle_shape(h as int)[0]) ==> r is Ok,
            old(self).live(h as int) && old(self).live(hidx as int) && old(self).handle_tp(
                hidx as int,
            ) == NDArrayType::Int && old(self).handle_shape(hidx as int).len() == 2 && old(
                self,
            ).handle_shape(hidx as int)[1] == old(self).handle_shape(h as int).len() && old(
                self,
            ).handle_shape(hidx as int)[0] <= i64::MAX && (forall|r2: int|
                0 <= r2 < old(self).handle_shape(hidx as int)[0]
                    ==> #[trigger] crate::ops::coord_row_ok(
                    int_elems(*old(self), hidx as int),
                    old(self).handle_shape(h as int),
                    r2,
                )) ==> r is Ok,
    {
        let a = match self.handle_data(h) {
            Ok(a) => a,
            Err(e) => {
                return Err(e);
            },
        };
        let idx = match self.handle_data(hidx) {
            Ok(a) => a,
            Err(e) => {
                return Err(e);
            },
        };
        match idx.tp_exec() {
            NDArrayType::Float => Err(RyndError::InvalidIndex),
            NDArrayType::Bool => {
                let out = match mask_index(&a, &idx) {
                    Ok(o) => o,
                    Err(e) => {
                        return Err(e);
                    },
                };
                let h2 = self.register_and_leak(out);
                Ok(h2)
            },
            NDArrayType::Int => {
                let flat = match &idx.data {
                    Buffer::Int(v) => clone_vec_i64(v),
                    _ => {
                        proof {
                            assert(false);
                        }
                        Vec::new()
                    },
                };
                proof {
                    assert(flat@.map_values(|x: i64| Value::Int(x)) =~= idx.elems());
                    assert(flat@ =~= idx.elems().map_values(|v: Value| as_int(v)));
                }
                if idx.shape.len() == 1 {
                    if a.shape.len() < 1 {
                        return Err(RyndError::InvalidIndex);
                    }
                    // bound the gathered size before building it
                    proof {
                        crate::shape::lemma_sufprod_nonneg(a.shape@, 1);
                    }
                    let rowsize_opt = checked_sufprod(&a.shape);
                    let rowsize = match rowsize_opt {
                        Some(v) => v,
                        None => {
                            return Err(RyndError::UnsupportedOperation);
                        },
                    };
                    let total = match flat.len().checked_mul(rowsize) {
                        Some(v) => v,
                        None => {
                            return Err(RyndError::UnsupportedOperation);
                        },
                    };
                    if (total as u128) > (i64::MAX as u128) {
                        return Err(RyndError::UnsupportedOperation);
                    }
                    let out = match crate::ops::gather_rows(&a, &flat) {
                        Ok(o) => o,
                        Err(e) => {
                            return Err(e);
                        },
                    };
                    proof {
                        crate::shape::lemma_prod_single(idx.shape@);
                    }
                    let h2 = self.register_and_leak(out);
                    Ok(h2)
                } else if idx.shape.len() == 2 {
                    let rowlen = idx.shape[1];
                    if rowlen != a.shape.len() {
                        return Err(RyndError::InvalidIndex);
                    }
                    let nrows = idx.shape[0];
                    if (nrows as u128) > (i64::MAX as u128) {
                        return Err(RyndError::UnsupportedOperation);
                    }
                    proof {
                        crate::ops::lemma_rank2_len(idx.shape@);
                    }
                    let out = match crate::ops::gather_coords(&a, &flat, nrows) {
                        Ok(o) => o,
                        Err(e) => {
                            proof {
                                assert(flat@ == int_elems(*old(self), hidx as int));
                                assert(a.shape@ == old(self).handle_shape(h as int));
                            }
                            return Err(e);
                        },
                    };
                    let h2 = self.register_and_leak(out);
                    Ok(h2)
                } else {
                    Err(RyndError::InvalidIndex)
                }
            },
        }
    }

    /// The coordinates of every nonzero element, in iteration order, as a
    /// 2-D Int array.
    pub fn nonzero(&mut self, h: usize) -> (r: Result<usize, RyndError>)
        requires
            old(self).wf(),
            old(self).slots@.len() < usize::MAX,
        ensures
            final(self).wf(),
            r is Err ==> final(self).slots@ == old(self).slots@,
            !old(self).live(h as int) ==> r == Err::<usize, RyndError>(RyndError::DeletedHandle),
            r is Ok ==> {
                let h2 = r.unwrap() as int;
                let positions = crate::ops::nonzero_positions(old(self).handle_elems(h as int));
                let ndim = old(self).handle_shape(h as int).len() as int;
                &&& old(self).live(h as int)
                &&& final(self).is_owned(h2)
                &&& final(self).handle_tp(h2) == NDArrayType::Int
                &&& final(self).handle_shape(h2).len() == 2
                &&& final(self).handle_shape(h2)[0] == positions.len()
                &&& final(self).handle_shape(h2)[1] as int == ndim
                &&& forall|p: int, k: int|
                    0 <= p < positions.len() && 0 <= k < ndim
                        ==> #[trigger] final(self).handle_elems(h2)[p * ndim + k] == Value::Int(
                        crate::shape::unrank(old(self).handle_shape(h as int), positions[p])[
                            k] as i64,
                    )
                &&& final(self).slots@.len() == old(self).slots@.len() + 1
                &&& final(self).entry(r.unwrap() as int).views@.len() == 0
                &&& forall|h3: int|
                    0 <= h3 < old(self).slots@.len() ==> final(self).slots@[h3] == old(
                        self,
                    ).slots@[h3]
            },
            old(self).live(h as int) && crate::ops::nonzero_positions(
                old(self).handle_elems(h as int),
            ).len() * old(self).handle_shape(h as int).len() <= i64::MAX
                && crate::ops::nonzero_positions(old(self).handle_elems(h as int)).len() * old(
                self,
            ).handle_shape(h as int).len() <= usize::MAX ==> r is Ok,
    {
        let a = match self.handle_data(h) {
            Ok(a) => a,
            Err(e) => {
                return Err(e);
            },
        };
        let out = match crate::ops::nonzero(&a) {
            Ok(o) => o,
            Err(e) => {
                return Err(e);
            },
        };
        let h2 = self.register_and_leak(out);
        Ok(h2)
    }

    /// The ascending integers `[0, l)` as a fresh 1-D Int handle; a
    /// non-positive length yields an empty array.
    pub fn iota(&mut self, l: i64) -> (r: Result<usize, RyndError>)
        requires
            old(self).wf(),
            old(self).slots@.len() < usize::MAX,
        ensures
            final(self).wf(),
            r is Err ==> final(self).slots@ == old(self).slots@ && l > usize::MAX,
            l <= usize::MAX ==> r is Ok && {
                let h = r.unwrap() as int;
                let n = if l < 0 {
                    0
                } else {
                    l as int
                };
                &&& final(self).is_owned(h)
                &&& final(self).handle_tp(h) == NDArrayType::Int
                &&& final(self).handle_shape(h) =~= seq![n as usize]
                &&& final(self).handle_elems(h).len() == n
                &&& forall|k: int|
                    0 <= k < n ==> final(self).handle_elems(h)[k] == Value::Int(k as i64)
                &&& final(self).slots@.len() == old(self).slots@.len() + 1
                &&& final(self).entry(r.unwrap() as int).views@.len() == 0
                &&& forall|h3: int|
                    0 <= h3 < old(self).slots@.len() ==> final(self).slots@[h3] == old(
                        self,
                    ).slots@[h3]
            },
    {
        if l >= 0 && (l as u128) > (usize::MAX as u128) {
            return Err(RyndError::UnsupportedOperation);
        }
        let n: i64 = if l < 0 {
            0
        } else {
            l
        };
        let a = NDArrayOwned::iota(n);
        let h = self.register_and_leak(a);
        Ok(h)
    }

    /// The integers `f, f + s, ...` below `t` as a fresh 1-D Int handle.
    pub fn linspace(&mut self, f: i64, t: i64, s: usize) -> (r: Result<usize, RyndError>)
        requires
            old(self).wf(),
            old(self).slots@.len() < usize::MAX,
        ensures
            final(self).wf(),
            r is Err ==> final(self).slots@ == old(self).slots@,
            s == 0 ==> r == Err::<usize, RyndError>(RyndError::InvalidIndex),
            s >= 1 && crate::owned::linspace_len(f as int, t as int, s as int) <= usize::MAX
                && crate::owned::linspace_len(f as int, t as int, s as int) <= i64::MAX ==> r is Ok
                && {
                let h = r.unwrap() as int;
                &&& final(self).is_owned(h)
                &&& final(self).handle_tp(h) == NDArrayType::Int
                &&& final(self).handle_elems(h).len() == crate::owned::linspace_len(
                    f as int,
                    t as int,
                    s as int,
                )
                &&& forall|k: int|
                    0 <= k < final(self).handle_elems(h).len() ==> final(self).handle_elems(h)[k]
                        == Value::Int((f + k * s) as i64)
                &&& final(self).slots@.len() == old(self).slots@.len() + 1
                &&& final(self).entry(r.unwrap() as int).views@.len() == 0
                &&& forall|h3: int|
                    0 <= h3 < old(self).slots@.len() ==> final(self).slots@[h3] == old(
                        self,
                    ).slots@[h3]
            },
    {
        if s == 0 {
            return Err(RyndError::InvalidIndex);
        }
        if f < t {
            // the count (t - f - 1) / s + 1 must fit
            let span: u128 = (t as i128 - f as i128 - 1) as u128;
            let cnt: u128 = span / (s as u128) + 1;
            if cnt > (usize::MAX as u128) || cnt > (i64::MAX as u128) {
                return Err(RyndError::UnsupportedOperation);
            }
            proof {
                vstd::arithmetic::div_mod::lemma_div_pos_is_pos(t as int - f - 1, s as int);
            }
        }
        let a = NDArrayOwned::linspace(f, t, s);
        let h = self.register_and_leak(a);
        Ok(h)
    }
}

/// Computes `sufprod(shape, 1)` when it fits the machine.
fn checked_sufprod(shape: &Vec<usize>) -> (r: Option<usize>)
    ensures
        r is Some ==> r.unwrap() as int == crate::shape::sufprod(shape@, 1),
        crate::shape::sufprod(shape@, 1) <= usize::MAX ==> r is Some,
{
    let ndim = shape.len();
    if ndim <= 1 {
        proof {
            assert(crate::shape::sufprod(shape@, 1) == 1);
        }
        return Some(1);
    }
    // a zero dimension forces the suffix product to zero
    let mut z: usize = 1;
    while z < ndim
        invariant
            1 <= z <= ndim,
            ndim == shape@.len(),
            forall|i: int| 1 <= i < z ==> (#[trigger] shape@[i]) >= 1,
        decreases ndim - z,
    {
        if shape[z] == 0 {
            proof {
                lemma_zero_prod_from(shape@, 1, z as int);
            }
            return Some(0);
        }
        z += 1;
    }
    // all later dimensions are at least 1: the suffix products shrink as the
    // start index grows, so no intermediate exceeds the result
    let mut acc: usize = 1;
    let mut k: usize = ndim;
    while k > 1
        invariant
            1 <= k <= ndim,
            ndim == shape@.len(),
            forall|i: int| 1 <= i < ndim ==> (#[trigger] shape@[i]) >= 1,
            acc as int == crate::shape::sufprod(shape@, k as int),
        decreases k,
    {
        proof {
            lemma_sufprod_tail_mono(shape@, 1, k as int - 1);
        }
        let next = match acc.checked_mul(shape[k - 1]) {
            Some(v) => v,
            None => {
                proof {
                    assert(shape@[k - 1] as int * crate::shape::sufprod(shape@, k as int)
                        == acc as int * shape@[k - 1] as int) by (nonlinear_arith)
                        requires
                            acc as int == crate::shape::sufprod(shape@, k as int),
                    ;
                }
                return None;
            },
        };
        proof {
            assert(shape@[k - 1] as int * crate::shape::sufprod(shape@, k as int) == acc as int
                * shape@[k - 1] as int) by (nonlinear_arith)
                requires
                    acc as int == crate::shape::sufprod(shape@, k as int),
            ;
        }
        acc = next;
        k -= 1;
    }
    Some(acc)
}

proof fn lemma_zero_prod_from(s: Seq<usize>, k: int, i: int)
    requires
        0 <= k <= i < s.len(),
        s[i] == 0,
    ensures
        crate::shape::sufprod(s, k) == 0,
    decreases i - k,
{
    if k == i {
        assert(0int * crate::shape::sufprod(s, k + 1) == 0) by (nonlinear_arith);
    } else {
        lemma_zero_prod_from(s, k + 1, i);
        assert(s[k] as int * 0 == 0) by (nonlinear_arith);
    }
}

/// With every dimension from `k` on at least 1, the suffix product at any
/// later start divides into, and is bounded by, the one at `k`.
proof fn lemma_sufprod_tail_mono(s: Seq<usize>, k: int, j: int)
    requires
        forall|i: int| 1 <= i < s.len() ==> (#[trigger] s[i]) >= 1,
        1 <= k <= j,
    ensures
        crate::shape::sufprod(s, j) <= crate::shape::sufprod(s, k),
        crate::shape::sufprod(s, j) >= 1 || j >= s.len(),
    decreases j - k,
{
    lemma_tail_pos(s, j);
    if k < j {
        lemma_sufprod_tail_mono(s, k + 1, j);
        lemma_tail_pos(s, k + 1);
        if k < s.len() {
            vstd::arithmetic::mul::lemma_mul_inequality(
                1,
                s[k] as int,
                crate::shape::sufprod(s, k + 1),
            );
        }
    }
}

proof fn lemma_tail_pos(s: Seq<usize>, k: int)
    requires
        forall|i: int| 1 <= i < s.len() ==> (#[trigger] s[i]) >= 1,
        1 <= k,
    ensures
        crate::shape::sufprod(s, k) >= 1,
    decreases s.len() - k,
{
    if k < s.len() {
        lemma_tail_pos(s, k + 1);
        vstd::arithmetic::mul::lemma_mul_inequality(
            1,
            s[k] as int,
            crate::shape::sufprod(s, k + 1),
        );
    }
}

fn clone_vec_i64(v: &Vec<i64>) -> (r: Vec<i64>)
    ensures
        r@ == v@,
{
    let mut r: Vec<i64> = Vec::new();
    let n = v.len();
    let mut i: usize = 0;
    while i < n
        invariant
            0 <= i <= n,
            n == v@.len(),
            r@.len() == i,
            forall|k: int| 0 <= k < i ==> r@[k] == v@[k],
        decreases n - i,
    {
        r.push(v[i]);
        i += 1;
    }
    proof {
        assert(r@ =~= v@);
    }
    r
}

/// A permuted shape has the source's element count.
proof fn lemma_permuted_numel(s: Seq<usize>, rs: Seq<usize>, perm: Seq<usize>)
    requires
        crate::shape::is_permutation(crate::view::coords_int(perm), s.len() as int),
        rs.len() == s.len(),
        forall|k: int| 0 <= k < rs.len() ==> rs[k] == s[#[trigger] perm[k] as int],
    ensures
        prod(rs) == prod(s),
{
    crate::shape::lemma_prod_permute(s, rs, crate::view::coords_int(perm));
}

/// The flat position whose coordinates mirror those of position `j` on axis
/// `ax`.
pub open spec fn mirror_index(s: Seq<usize>, ax: int, j: int) -> int {
    crate::shape::rank_of(
        s,
        crate::shape::unrank(s, j).update(ax, s[ax] - 1 - crate::shape::unrank(s, j)[ax]),
    )
}

/// A negative slice bound wraps by one past the dimension.
pub open spec fn slice_bound(d: int, b: int) -> int {
    if b >= 0 {
        b
    } else {
        1 + d + b
    }
}

/// The slice arguments that are accepted on a dimension: a nonzero step and
/// wrapped bounds with the start on the axis, the end at most one past it,
/// and the start not after the end.
pub open spec fn slice_args_ok(d: int, s: int, e: int, st: int) -> bool {
    &&& st != 0
    &&& 0 <= slice_bound(d, s) < d
    &&& 0 <= slice_bound(d, e) <= d
    &&& slice_bound(d, s) <= slice_bound(d, e)
}

/// How many indices the slice selects.
pub open spec fn slice_len_of(d: int, s: int, e: int, st: int) -> int {
    let ns = slice_bound(d, s);
    let ne = slice_bound(d, e);
    if ne <= ns {
        0
    } else {
        (ne - ns - 1) / (if st >= 0 {
            st
        } else {
            -st
        }) + 1
    }
}

/// The first selected index: the start for a forward step, the last index of
/// the range for a backward one.
pub open spec fn slice_first_of(d: int, s: int, e: int, st: int) -> int {
    if slice_len_of(d, s, e, st) == 0 {
        0
    } else if st > 0 {
        slice_bound(d, s)
    } else {
        slice_bound(d, e) - 1
    }
}

/// The per-axis slice parameters after padding: axes beyond the given
/// triples keep their full range.
pub open spec fn padded_first(
    s: Seq<usize>,
    starts: Seq<i64>,
    ends: Seq<i64>,
    steps: Seq<i64>,
    k: int,
) -> int {
    if k < starts.len() {
        slice_first_of(s[k] as int, starts[k] as int, ends[k] as int, steps[k] as int)
    } else {
        0
    }
}

pub open spec fn padded_len(
    s: Seq<usize>,
    starts: Seq<i64>,
    ends: Seq<i64>,
    steps: Seq<i64>,
    k: int,
) -> int {
    if k < starts.len() {
        slice_len_of(s[k] as int, starts[k] as int, ends[k] as int, steps[k] as int)
    } else {
        s[k] as int
    }
}

pub open spec fn padded_step(starts: Seq<i64>, steps: Seq<i64>, k: int) -> int {
    if k < starts.len() {
        steps[k] as int
    } else {
        1
    }
}

/// The source coordinates position `j` of the slice reads: per axis, the
/// first selected index plus the position's coordinate times the step.
pub open spec fn slice_source_coords(
    s: Seq<usize>,
    starts: Seq<i64>,
    ends: Seq<i64>,
    steps: Seq<i64>,
    newshape: Seq<usize>,
    j: int,
) -> Seq<int> {
    Seq::new(
        s.len(),
        |k: int|
            padded_first(s, starts, ends, steps, k) + crate::shape::unrank(newshape, j)[k]
                * padded_step(starts, steps, k),
    )
}

/// One slice axis, validated: wraps negative bounds, rejects a zero step or
/// out-of-range bounds, and yields the first selected index and the length.
pub fn rynd_slice_axis(d: usize, s: i64, e: i64, st: i64) -> (r: Result<(usize, usize), RyndError>)
    ensures
        r is Ok <==> slice_args_ok(d as int, s as int, e as int, st as int),
        r is Ok ==> {
            let (f, m) = r.unwrap();
            &&& crate::view::slice_axis_ok(d, f, m, st)
            &&& f as int == slice_first_of(d as int, s as int, e as int, st as int)
            &&& m as int == slice_len_of(d as int, s as int, e as int, st as int)
        },
        r is Err ==> r == Err::<(usize, usize), RyndError>(RyndError::InvalidIndex),
{
    if st == 0 {
        return Err(RyndError::InvalidIndex);
    }
    // negative bounds wrap by one past the dimension, as the boundary defines
    let ns: i128 = if s >= 0 {
        s as i128
    } else {
        1 + d as i128 + s as i128
    };
    let ne: i128 = if e >= 0 {
        e as i128
    } else {
        1 + d as i128 + e as i128
    };
    if ns < 0 || ns >= d as i128 {
        return Err(RyndError::InvalidIndex);
    }
    if ne < 0 || ne > d as i128 {
        return Err(RyndError::InvalidIndex);
    }
    if ne < ns {
        return Err(RyndError::InvalidIndex);
    }
    let nsu = ns as usize;
    let neu = ne as usize;
    if neu <= nsu {
        // an empty selection
        return Ok((0, 0));
    }
    let ast: i128 = if st >= 0 {
        st as i128
    } else {
        -(st as i128)
    };
    let span = neu - nsu - 1;
    let m: usize = if (span as u128) < (ast as u128) {
        // the step leaps past the range after its first index
        proof {
            vstd::arithmetic::div_mod::lemma_basic_div(span as int, ast as int);
        }
        1
    } else {
        let astu = ast as usize;
        span / astu + 1
    };
    let f: usize = if st > 0 {
        nsu
    } else {
        neu - 1
    };
    proof {
        lemma_slice_axis_fit(d as int, nsu as int, neu as int, st as int, ast as int, m as int);
    }
    Ok((f, m))
}

/// The computed first index and length select only indices on the axis.
proof fn lemma_slice_axis_fit(d: int, ns: int, ne: int, st: int, ast: int, m: int)
    requires
        0 <= ns < d,
        0 < ne <= d,
        ns < ne,
        st != 0,
        ast == (if st >= 0 {
            st
        } else {
            -st
        }),
        ast >= 1,
        m == (ne - ns - 1) / ast + 1,
    ensures
        m >= 1,
        m <= d,
        st > 0 ==> 0 <= ns + (m - 1) * st < d,
        st < 0 ==> 0 <= (ne - 1) + (m - 1) * st < d,
        crate::view::slice_axis_ok(d as usize, (if st > 0 {
            ns
        } else {
            ne - 1
        }) as usize, m as usize, st as i64) || d > usize::MAX || st > i64::MAX || st < i64::MIN
            || m > usize::MAX,
{
    let q = (ne - ns - 1) / ast;
    vstd::arithmetic::div_mod::lemma_div_pos_is_pos(ne - ns - 1, ast);
    vstd::arithmetic::div_mod::lemma_fundamental_div_mod(ne - ns - 1, ast);
    vstd::arithmetic::div_mod::lemma_mod_division_less_than_divisor(ne - ns - 1, ast);
    // q * ast <= ne - ns - 1
    assert(q * ast <= ne - ns - 1);
    // m - 1 == q, so (m-1)*ast <= ne - ns - 1
    assert((m - 1) * ast <= ne - ns - 1);
    // m <= ne - ns <= d
    vstd::arithmetic::div_mod::lemma_div_nonincreasing(ne - ns - 1, ast);
    if st > 0 {
        assert((m - 1) * st <= ne - ns - 1);
        vstd::arithmetic::mul::lemma_mul_nonnegative(m - 1, st);
    } else {
        assert((m - 1) * st == -((m - 1) * ast)) by (nonlinear_arith)
            requires
                st == -ast,
        ;
    }
}


impl MemoryManager {

    /// Elementwise `sum` of two handles, by the promotion table.
    pub fn sum(&mut self, ha: usize, hb: usize) -> (r: Result<usize, RyndError>)
        requires
            old(self).wf(),
            old(self).slots@.len() < usize::MAX,
        ensures
            final(self).wf(),
            r is Err ==> final(self).slots@ == old(self).slots@,
            !(old(self).live(ha as int) && old(self).live(hb as int)) ==> r == Err::<
                usize,
                RyndError,
            >(RyndError::DeletedHandle),
            old(self).live(ha as int) && old(self).live(hb as int) && !(old(self).handle_shape(
                ha as int,
            ) =~= old(self).handle_shape(hb as int)) ==> r == Err::<usize, RyndError>(
                RyndError::IncompatibleShape,
            ),
            old(self).live(ha as int) && old(self).live(hb as int) && old(self).handle_shape(
                ha as int,
            ) =~= old(self).handle_shape(hb as int) && !binop_ok(
                BinOp::Sum,
                old(self).handle_tp(ha as int),
                old(self).handle_tp(hb as int),
            ) ==> r == Err::<usize, RyndError>(RyndError::IncompatibleType),
            old(self).live(ha as int) && old(self).live(hb as int) && old(self).handle_shape(
                ha as int,
            ) =~= old(self).handle_shape(hb as int) && binop_ok(
                BinOp::Sum,
                old(self).handle_tp(ha as int),
                old(self).handle_tp(hb as int),
            ) && binop_seq_defined(
                BinOp::Sum,
                old(self).handle_elems(ha as int),
                old(self).handle_elems(hb as int),
            ) ==> r is Ok,
            r is Ok ==> {
                let h = r.unwrap() as int;
                &&& final(self).is_owned(h)
                &&& final(self).handle_tp(h) == binop_result_type(
                    BinOp::Sum,
                    old(self).handle_tp(ha as int),
                    old(self).handle_tp(hb as int),
                )
                &&& final(self).handle_shape(h) == old(self).handle_shape(ha as int)
                &&& final(self).handle_elems(h) =~= binop_seq(
                    BinOp::Sum,
                    old(self).handle_elems(ha as int),
                    old(self).handle_elems(hb as int),
                )
                &&& final(self).slots@.len() == old(self).slots@.len() + 1
                &&& final(self).entry(r.unwrap() as int).views@.len() == 0
                &&& forall|h3: int|
                    0 <= h3 < old(self).slots@.len() ==> final(self).slots@[h3] == old(
                        self,
                    ).slots@[h3]
            },
    {
        self.binop(BinOp::Sum, ha, hb)
    }

    /// Elementwise `sub` of two handles, by the promotion table.
    pub fn sub(&mut self, ha: usize, hb: usize) -> (r: Result<usize, RyndError>)
        requires
            old(self).wf(),
            old(self).slots@.len() < usize::MAX,
        ensures
            final(self).wf(),
            r is Err ==> final(self).slots@ == old(self).slots@,
            !(old(self).live(ha as int) && old(self).live(hb as int)) ==> r == Err::<
                usize,
                RyndError,
            >(RyndError::DeletedHandle),
            old(self).live(ha as int) && old(self).live(hb as int) && !(old(self).handle_shape(
                ha as int,
            ) =~= old(self).handle_shape(hb as int)) ==> r == Err::<usize, RyndError>(
                RyndError::IncompatibleShape,
            ),
            old(self).live(ha as int) && old(self).live(hb as int) && old(self).handle_shape(
                ha as int,
            ) =~= old(self).handle_shape(hb as int) && !binop_ok(
                BinOp::Sub,
                old(self).handle_tp(ha as int),
                old(self).handle_tp(hb as int),
            ) ==> r == Err::<usize, RyndError>(RyndError::IncompatibleType),
            old(self).live(ha as int) && old(self).live(hb as int) && old(self).handle_shape(
                ha as int,
            ) =~= old(self).handle_shape(hb as int) && binop_ok(
                BinOp::Sub,
                old(self).handle_tp(ha as int),
                old(self).handle_tp(hb as int),
            ) && binop_seq_defined(
                BinOp::Sub,
                old(self).handle_elems(ha as int),
                old(self).handle_elems(hb as int),
            ) ==> r is Ok,
            r is Ok ==> {
                let h = r.unwrap() as int;
                &&& final(self).is_owned(h)
                &&& final(self).handle_tp(h) == binop_result_type(
                    BinOp::Sub,
                    old(self).handle_tp(ha as int),
                    old(self).handle_tp(hb as int),
                )
                &&& final(self).handle_shape(h) == old(self).handle_shape(ha as int)
                &&& final(self).handle_elems(h) =~= binop_seq(
                    BinOp::Sub,
                    old(self).handle_elems(ha as int),
                    old(self).handle_elems(hb as int),
                )
                &&& final(self).slots@.len() == old(self).slots@.len() + 1
                &&& final(self).entry(r.unwrap() as int).views@.len() == 0
                &&& forall|h3: int|
                    0 <= h3 < old(self).slots@.len() ==> final(self).slots@[h3] == old(
                        self,
                    ).slots@[h3]
            },
    {
        self.binop(BinOp::Sub, ha, hb)
    }

    /// Elementwise `mul` of two handles, by the promotion table.
    pub fn mul(&mut self, ha: usize, hb: usize) -> (r: Result<usize, RyndError>)
        requires
            old(self).wf(),
            old(self).slots@.len() < usize::MAX,
        ensures
            final(self).wf(),
            r is Err ==> final(self).slots@ == old(self).slots@,
            !(old(self).live(ha as int) && old(self).live(hb as int)) ==> r == Err::<
                usize,
                RyndError,
            >(RyndError::DeletedHandle),
            old(self).live(ha as int) && old(self).live(hb as int) && !(old(self).handle_shape(
                ha as int,
            ) =~= old(self).handle_shape(hb as int)) ==> r == Err::<usize, RyndError>(
                RyndError::IncompatibleShape,
            ),
            old(self).live(ha as int) && old(self).live(hb as int) && old(self).handle_shape(
                ha as int,
            ) =~= old(self).handle_shape(hb as int) && !binop_ok(
                BinOp::Mul,
                old(self).handle_tp(ha as int),
                old(self).handle_tp(hb as int),
            ) ==> r == Err::<usize, RyndError>(RyndError::IncompatibleType),
            old(self).live(ha as int) && old(self).live(hb as int) && old(self).handle_shape(
                ha as int,
            ) =~= old(self).handle_shape(hb as int) && binop_ok(
                BinOp::Mul,
                old(self).handle_tp(ha as int),
                old(self).handle_tp(hb as int),
            ) && binop_seq_defined(
                BinOp::Mul,
                old(self).handle_elems(ha as int),
                old(self).handle_elems(hb as int),
            ) ==> r is Ok,
            r is Ok ==> {
                let h = r.unwrap() as int;
                &&& final(self).is_owned(h)
                &&& final(self).handle_tp(h) == binop_result_type(
                    BinOp::Mul,
                    old(self).handle_tp(ha as int),
                    old(self).handle_tp(hb as int),
                )
                &&& final(self).handle_shape(h) == old(self).handle_shape(ha as int)
                &&& final(self).handle_elems(h) =~= binop_seq(
                    BinOp::Mul,
                    old(self).handle_elems(ha as int),
                    old(self).handle_elems(hb as int),
                )
                &&& final(self).slots@.len() == old(self).slots@.len() + 1
                &&& final(self).entry(r.unwrap() as int).views@.len() == 0
                &&& forall|h3: int|
                    0 <= h3 < old(self).slots@.len() ==> final(self).slots@[h3] == old(
                        self,
                    ).slots@[h3]
            },
    {
        self.binop(BinOp::Mul, ha, hb)
    }

    /// Elementwise `div` of two handles, by the promotion table.
    pub fn div(&mut self, ha: usize, hb: usize) -> (r: Result<usize, RyndError>)
        requires
            old(self).wf(),
            old(self).slots@.len() < usize::MAX,
        ensures
            final(self).wf(),
            r is Err ==> final(self).slots@ == old(self).slots@,
            !(old(self).live(ha as int) && old(self).live(hb as int)) ==> r == Err::<
                usize,
                RyndError,
            >(RyndError::DeletedHandle),
            old(self).live(ha as int) && old(self).live(hb as int) && !(old(self).handle_shape(
                ha as int,
            ) =~= old(self).handle_shape(hb as int)) ==> r == Err::<usize, RyndError>(
                RyndError::IncompatibleShape,
            ),
            old(self).live(ha as int) && old(self).live(hb as int) && old(self).handle_shape(
                ha as int,
            ) =~= old(self).handle_shape(hb as int) && !binop_ok(
                BinOp::Div,
                old(self).handle_tp(ha as int),
                old(self).handle_tp(hb as int),
            ) ==> r == Err::<usize, RyndError>(RyndError::IncompatibleType),
            old(self).live(ha as int) && old(self).live(hb as int) && old(self).handle_shape(
                ha as int,
            ) =~= old(self).handle_shape(hb as int) && binop_ok(
                BinOp::Div,
                old(self).handle_tp(ha as int),
                old(self).handle_tp(hb as int),
            ) && binop_seq_defined(
                BinOp::Div,
                old(self).handle_elems(ha as int),
                old(self).handle_elems(hb as int),
            ) ==> r is Ok,
            r is Ok ==> {
                let h = r.unwrap() as int;
                &&& final(self).is_owned(h)
                &&& final(self).handle_tp(h) == binop_result_type(
                    BinOp::Div,
                    old(self).handle_tp(ha as int),
                    old(self).handle_tp(hb as int),
                )
                &&& final(self).handle_shape(h) == old(self).handle_shape(ha as int)
                &&& final(self).handle_elems(h) =~= binop_seq(
                    BinOp::Div,
                    old(self).handle_elems(ha as int),
                    old(self).handle_elems(hb as int),
                )
                &&& final(self).slots@.len() == old(self).slots@.len() + 1
                &&& final(self).entry(r.unwrap() as int).views@.len() == 0
                &&& forall|h3: int|
                    0 <= h3 < old(self).slots@.len() ==> final(self).slots@[h3] == old(
                        self,
                    ).slots@[h3]
            },
    {
        self.binop(BinOp::Div, ha, hb)
    }

    /// Elementwise `modulo` of two handles, by the promotion table.
    pub fn modulo(&mut self, ha: usize, hb: usize) -> (r: Result<usize, RyndError>)
        requires
            old(self).wf(),
            old(self).slots@.len() < usize::MAX,
        ensures
            final(self).wf(),
            r is Err ==> final(self).slots@ == old(self).slots@,
            !(old(self).live(ha as int) && old(self).live(hb as int)) ==> r == Err::<
                usize,
                RyndError,
            >(RyndError::DeletedHandle),
            old(self).live(ha as int) && old(self).live(hb as int) && !(old(self).handle_shape(
                ha as int,
            ) =~= old(self).handle_shape(hb as int)) ==> r == Err::<usize, RyndError>(
                RyndError::IncompatibleShape,
            ),
            old(self).live(ha as int) && old(self).live(hb as int) && old(self).handle_shape(
                ha as int,
            ) =~= old(self).handle_shape(hb as int) && !binop_ok(
                BinOp::Modulo,
                old(self).handle_tp(ha as int),
                old(self).handle_tp(hb as int),
            ) ==> r == Err::<usize, RyndError>(RyndError::IncompatibleType),
            old(self).live(ha as int) && old(self).live(hb as int) && old(self).handle_shape(
                ha as int,
            ) =~= old(self).handle_shape(hb as int) && binop_ok(
                BinOp::Modulo,
                old(self).handle_tp(ha as int),
                old(self).handle_tp(hb as int),
            ) && binop_seq_defined(
                BinOp::Modulo,
                old(self).handle_elems(ha as int),
                old(self).handle_elems(hb as int),
            ) ==> r is Ok,
            r is Ok ==> {
                let h = r.unwrap() as int;
                &&& final(self).is_owned(h)
                &&& final(self).handle_tp(h) == binop_result_type(
                    BinOp::Modulo,
                    old(self).handle_tp(ha as int),
                    old(self).handle_tp(hb as int),
                )
                &&& final(self).handle_shape(h) == old(self).handle_shape(ha as int)
                &&& final(self).handle_elems(h) =~= binop_seq(
                    BinOp::Modulo,
                    old(self).handle_elems(ha as int),
                    old(self).handle_elems(hb as int),
                )
                &&& final(self).slots@.len() == old(self).slots@.len() + 1
                &&& final(self).entry(r.unwrap() as int).views@.len() == 0
                &&& forall|h3: int|
                    0 <= h3 < old(self).slots@.len() ==> final(self).slots@[h3] == old(
                        self,
                    ).slots@[h3]
            },
    {
        self.binop(BinOp::Modulo, ha, hb)
    }

    /// Elementwise `eq` of two handles, by the promotion table.
    pub fn eq(&mut self, ha: usize, hb: usize) -> (r: Result<usize, RyndError>)
        requires
            old(self).wf(),
            old(self).slots@.len() < usize::MAX,
        ensures
            final(self).wf(),
            r is Err ==> final(self).slots@ == old(self).slots@,
            !(old(self).live(ha as int) && old(self).live(hb as int)) ==> r == Err::<
                usize,
                RyndError,
            >(RyndError::DeletedHandle),
            old(self).live(ha as int) && old(self).live(hb as int) && !(old(self).handle_shape(
                ha as int,
            ) =~= old(self).handle_shape(hb as int)) ==> r == Err::<usize, RyndError>(
                RyndError::IncompatibleShape,
            ),
            old(self).live(ha as int) && old(self).live(hb as int) && old(self).handle_shape(
                ha as int,
            ) =~= old(self).handle_shape(hb as int) && !binop_ok(
                BinOp::Eq,
                old(self).handle_tp(ha as int),
                old(self).handle_tp(hb as int),
            ) ==> r == Err::<usize, RyndError>(RyndError::IncompatibleType),
            old(self).live(ha as int) && old(self).live(hb as int) && old(self).handle_shape(
                ha as int,
            ) =~= old(self).handle_shape(hb as int) && binop_ok(
                BinOp::Eq,
                old(self).handle_tp(ha as int),
                old(self).handle_tp(hb as int),
            ) && binop_seq_defined(
                BinOp::Eq,
                old(self).handle_elems(ha as int),
                old(self).handle_elems(hb as int),
            ) ==> r is Ok,
            r is Ok ==> {
                let h = r.unwrap() as int;
                &&& final(self).is_owned(h)
                &&& final(self).handle_tp(h) == binop_result_type(
                    BinOp::Eq,
                    old(self).handle_tp(ha as int),
                    old(self).handle_tp(hb as int),
                )
                &&& final(self).handle_shape(h) == old(self).handle_shape(ha as int)
                &&& final(self).handle_elems(h) =~= binop_seq(
                    BinOp::Eq,
                    old(self).handle_elems(ha as int),
                    old(self).handle_elems(hb as int),
                )
                &&& final(self).slots@.len() == old(self).slots@.len() + 1
                &&& final(self).entry(r.unwrap() as int).views@.len() == 0
                &&& forall|h3: int|
                    0 <= h3 < old(self).slots@.len() ==> final(self).slots@[h3] == old(
                        self,
                    ).slots@[h3]
            },
    {
        self.binop(BinOp::Eq, ha, hb)
    }

    /// Elementwise `neq` of two handles, by the promotion table.
    pub fn neq(&mut self, ha: usize, hb: usize) -> (r: Result<usize, RyndError>)
        requires
            old(self).wf(),
            old(self).slots@.len() < usize::MAX,
        ensures
            final(self).wf(),
            r is Err ==> final(self).slots@ == old(self).slots@,
            !(old(self).live(ha as int) && old(self).live(hb as int)) ==> r == Err::<
                usize,
                RyndError,
            >(RyndError::DeletedHandle),
            old(self).live(ha as int) && old(self).live(hb as int) && !(old(self).handle_shape(
                ha as int,
            ) =~= old(self).handle_shape(hb as int)) ==> r == Err::<usize, RyndError>(
                RyndError::IncompatibleShape,
            ),
            old(self).live(ha as int) && old(self).live(hb as int) && old(self).handle_shape(
                ha as int,
            ) =~= old(self).handle_shape(hb as int) && !binop_ok(
                BinOp::Neq,
                old(self).handle_tp(ha as int),
                old(self).handle_tp(hb as int),
            ) ==> r == Err::<usize, RyndError>(RyndError::IncompatibleType),
            old(self).live(ha as int) && old(self).live(hb as int) && old(self).handle_shape(
                ha as int,
            ) =~= old(self).handle_shape(hb as int) && binop_ok(
                BinOp::Neq,
                old(self).handle_tp(ha as int),
                old(self).handle_tp(hb as int),
            ) && binop_seq_defined(
                BinOp::Neq,
                old(self).handle_elems(ha as int),
                old(self).handle_elems(hb as int),
            ) ==> r is Ok,
            r is Ok ==> {
                let h = r.unwrap() as int;
                &&& final(self).is_owned(h)
                &&& final(self).handle_tp(h) == binop_result_type(
                    BinOp::Neq,
                    old(self).handle_tp(ha as int),
                    old(self).handle_tp(hb as int),
                )
                &&& final(self).handle_shape(h) == old(self).handle_shape(ha as int)
                &&& final(self).handle_elems(h) =~= binop_seq(
                    BinOp::Neq,
                    old(self).handle_elems(ha as int),
                    old(self).handle_elems(hb as int),
                )
                &&& final(self).slots@.len() == old(self).slots@.len() + 1
                &&& final(self).entry(r.unwrap() as int).views@.len() == 0
                &&& forall|h3: int|
                    0 <= h3 < old(self).slots@.len() ==> final(self).slots@[h3] == old(
                        self,
                    ).slots@[h3]
            },
    {
        self.binop(BinOp::Neq, ha, hb)
    }

    /// Elementwise `lt` of two handles, by the promotion table.
    pub fn lt(&mut self, ha: usize, hb: usize) -> (r: Result<usize, RyndError>)
        requires
            old(self).wf(),
            old(self).slots@.len() < usize::MAX,
        ensures
            final(self).wf(),
            r is Err ==> final(self).slots@ == old(self).slots@,
            !(old(self).live(ha as int) && old(self).live(hb as int)) ==> r == Err::<
                usize,
                RyndError,
            >(RyndError::DeletedHandle),
            old(self).live(ha as int) && old(self).live(hb as int) && !(old(self).handle_shape(
                ha as int,
            ) =~= old(self).handle_shape(hb as int)) ==> r == Err::<usize, RyndError>(
                RyndError::IncompatibleShape,
            ),
            old(self).live(ha as int) && old(self).live(hb as int) && old(self).handle_shape(
                ha as int,
            ) =~= old(self).handle_shape(hb as int) && !binop_ok(
                BinOp::Lt,
                old(self).handle_tp(ha as int),
                old(self).handle_tp(hb as int),
            ) ==> r == Err::<usize, RyndError>(RyndError::IncompatibleType),
            old(self).live(ha as int) && old(self).live(hb as int) && old(self).handle_shape(
                ha as int,
            ) =~= old(self).handle_shape(hb as int) && binop_ok(
                BinOp::Lt,
                old(self).handle_tp(ha as int),
                old(self).handle_tp(hb as int),
            ) && binop_seq_defined(
                BinOp::Lt,
                old(self).handle_elems(ha as int),
                old(self).handle_elems(hb as int),
            ) ==> r is Ok,
            r is Ok ==> {
                let h = r.unwrap() as int;
                &&& final(self).is_owned(h)
                &&& final(self).handle_tp(h) == binop_result_type(
                    BinOp::Lt,
                    old(self).handle_tp(ha as int),
                    old(self).handle_tp(hb as int),
                )
                &&& final(self).handle_shape(h) == old(self).handle_shape(ha as int)
                &&& final(self).handle_elems(h) =~= binop_seq(
                    BinOp::Lt,
                    old(self).handle_elems(ha as int),
                    old(self).handle_elems(hb as int),
                )
                &&& final(self).slots@.len() == old(self).slots@.len() + 1
                &&& final(self).entry(r.unwrap() as int).views@.len() == 0
                &&& forall|h3: int|
                    0 <= h3 < old(self).slots@.len() ==> final(self).slots@[h3] == old(
                        self,
                    ).slots@[h3]
            },
    {
        self.binop(BinOp::Lt, ha, hb)
    }

    /// Elementwise `gt` of two handles, by the promotion table.
    pub fn gt(&mut self, ha: usize, hb: usize) -> (r: Result<usize, RyndError>)
        requires
            old(self).wf(),
            old(self).slots@.len() < usize::MAX,
        ensures
            final(self).wf(),
            r is Err ==> final(self).slots@ == old(self).slots@,
            !(old(self).live(ha as int) && old(self).live(hb as int)) ==> r == Err::<
                usize,
                RyndError,
            >(RyndError::DeletedHandle),
            old(self).live(ha as int) && old(self).live(hb as int) && !(old(self).handle_shape(
                ha as int,
            ) =~= old(self).handle_shape(hb as int)) ==> r == Err::<usize, RyndError>(
                RyndError::IncompatibleShape,
            ),
            old(self).live(ha as int) && old(self).live(hb as int) && old(self).handle_shape(
                ha as int,
            ) =~= old(self).handle_shape(hb as int) && !binop_ok(
                BinOp::Gt,
                old(self).handle_tp(ha as int),
                old(self).handle_tp(hb as int),
            ) ==> r == Err::<usize, RyndError>(RyndError::IncompatibleType),
            old(self).live(ha as int) && old(self).live(hb as int) && old(self).handle_shape(
                ha as int,
            ) =~= old(self).handle_shape(hb as int) && binop_ok(
                BinOp::Gt,
                old(self).handle_tp(ha as int),
                old(self).handle_tp(hb as int),
            ) && binop_seq_defined(
                BinOp::Gt,
                old(self).handle_elems(ha as int),
                old(self).handle_elems(hb as int),
            ) ==> r is Ok,
            r is Ok ==> {
                let h = r.unwrap() as int;
                &&& final(self).is_owned(h)
                &&& final(self).handle_tp(h) == binop_result_type(
                    BinOp::Gt,
                    old(self).handle_tp(ha as int),
                    old(self).handle_tp(hb as int),
                )
                &&& final(self).handle_shape(h) == old(self).handle_shape(ha as int)
                &&& final(self).handle_elems(h) =~= binop_seq(
                    BinOp::Gt,
                    old(self).handle_elems(ha as int),
                    old(self).handle_elems(hb as int),
                )
                &&& final(self).slots@.len() == old(self).slots@.len() + 1
                &&& final(self).entry(r.unwrap() as int).views@.len() == 0
                &&& forall|h3: int|
                    0 <= h3 < old(self).slots@.len() ==> final(self).slots@[h3] == old(
                        self,
                    ).slots@[h3]
            },
    {
        self.binop(BinOp::Gt, ha, hb)
    }

    /// Elementwise `leq` of two handles, by the promotion table.
    pub fn leq(&mut self, ha: usize, hb: usize) -> (r: Result<usize, RyndError>)
        requires
            old(self).wf(),
            old(self).slots@.len() < usize::MAX,
        ensures
            final(self).wf(),
            r is Err ==> final(self).slots@ == old(self).slots@,
            !(old(self).live(ha as int) && old(self).live(hb as int)) ==> r == Err::<
                usize,
                RyndError,
            >(RyndError::DeletedHandle),
            old(self).live(ha as int) && old(self).live(hb as int) && !(old(self).handle_shape(
                ha as int,
            ) =~= old(self).handle_shape(hb as int)) ==> r == Err::<usize, RyndError>(
                RyndError::IncompatibleShape,
            ),
            old(self).live(ha as int) && old(self).live(hb as int) && old(self).handle_shape(
                ha as int,
            ) =~= old(self).handle_shape(hb as int) && !binop_ok(
                BinOp::Leq,
                old(self).handle_tp(ha as int),
                old(self).handle_tp(hb as int),
            ) ==> r == Err::<usize, RyndError>(RyndError::IncompatibleType),
            old(self).live(ha as int) && old(self).live(hb as int) && old(self).handle_shape(
                ha as int,
            ) =~= old(self).handle_shape(hb as int) && binop_ok(
                BinOp::Leq,
                old(self).handle_tp(ha as int),
                old(self).handle_tp(hb as int),
            ) && binop_seq_defined(
                BinOp::Leq,
                old(self).handle_elems(ha as int),
                old(self).handle_elems(hb as int),
            ) ==> r is Ok,
            r is Ok ==> {
                let h = r.unwrap() as int;
                &&& final(self).is_owned(h)
                &&& final(self).handle_tp(h) == binop_result_type(
                    BinOp::Leq,
                    old(self).handle_tp(ha as int),
                    old(self).handle_tp(hb as int),
                )
                &&& final(self).handle_shape(h) == old(self).handle_shape(ha as int)
                &&& final(self).handle_elems(h) =~= binop_seq(
                    BinOp::Leq,
                    old(self).handle_elems(ha as int),
                    old(self).handle_elems(hb as int),
                )
                &&& final(self).slots@.len() == old(self).slots@.len() + 1
                &&& final(self).entry(r.unwrap() as int).views@.len() == 0
                &&& forall|h3: int|
                    0 <= h3 < old(self).slots@.len() ==> final(self).slots@[h3] == old(
                        self,
                    ).slots@[h3]
            },
    {
        self.binop(BinOp::Leq, ha, hb)
    }

    /// Elementwise `geq` of two handles, by the promotion table.
    pub fn geq(&mut self, ha: usize, hb: usize) -> (r: Result<usize, RyndError>)
        requires
            old(self).wf(),
            old(self).slots@.len() < usize::MAX,
        ensures
            final(self).wf(),
            r is Err ==> final(self).slots@ == old(self).slots@,
            !(old(self).live(ha as int) && old(self).live(hb as int)) ==> r == Err::<
                usize,
                RyndError,
            >(RyndError::DeletedHandle),
            old(self).live(ha as int) && old(self).live(hb as int) && !(old(self).handle_shape(
                ha as int,
            ) =~= old(self).handle_shape(hb as int)) ==> r == Err::<usize, RyndError>(
                RyndError::IncompatibleShape,
            ),
            old(self).live(ha as int) && old(self).live(hb as int) && old(self).handle_shape(
                ha as int,
            ) =~= old(self).handle_shape(hb as int) && !binop_ok(
                BinOp::Geq,
                old(self).handle_tp(ha as int),
                old(self).handle_tp(hb as int),
            ) ==> r == Err::<usize, RyndError>(RyndError::IncompatibleType),
            old(self).live(ha as int) && old(self).live(hb as int) && old(self).handle_shape(
                ha as int,
            ) =~= old(self).handle_shape(hb as int) && binop_ok(
                BinOp::Geq,
                old(self).handle_tp(ha as int),
                old(self).handle_tp(hb as int),
            ) && binop_seq_defined(
                BinOp::Geq,
                old(self).handle_elems(ha as int),
                old(self).handle_elems(hb as int),
            ) ==> r is Ok,
            r is Ok ==> {
                let h = r.unwrap() as int;
                &&& final(self).is_owned(h)
                &&& final(self).handle_tp(h) == binop_result_type(
                    BinOp::Geq,
                    old(self).handle_tp(ha as int),
                    old(self).handle_tp(hb as int),
                )
                &&& final(self).handle_shape(h) == old(self).handle_shape(ha as int)
                &&& final(self).handle_elems(h) =~= binop_seq(
                    BinOp::Geq,
                    old(self).handle_elems(ha as int),
                    old(self).handle_elems(hb as int),
                )
                &&& final(self).slots@.len() == old(self).slots@.len() + 1
                &&& final(self).entry(r.unwrap() as int).views@.len() == 0
                &&& forall|h3: int|
                    0 <= h3 < old(self).slots@.len() ==> final(self).slots@[h3] == old(
                        self,
                    ).slots@[h3]
            },
    {
        self.binop(BinOp::Geq, ha, hb)
    }

    /// An elementwise binary operation between a handle and one scalar; the
    /// `reverse` flag puts the scalar on the left of the operator. Division
    /// and modulo of a boolean array are type errors, and integer division
    /// faults are reported instead of computed.
    pub fn binop_scalar(&mut self, op: BinOp, h: usize, scalar: Value, reverse: bool) -> (r: Result<
        usize,
        RyndError,
    >)
        requires
            old(self).wf(),
            old(self).slots@.len() < usize::MAX,
        ensures
            final(self).wf(),
            r is Err ==> final(self).slots@ == old(self).slots@,
            !old(self).live(h as int) ==> r == Err::<usize, RyndError>(RyndError::DeletedHandle),
            old(self).live(h as int) && (op == BinOp::Div || op == BinOp::Modulo) && old(
                self,
            ).handle_tp(h as int) == NDArrayType::Bool ==> r == Err::<usize, RyndError>(
                RyndError::IncompatibleType,
            ),
            old(self).live(h as int) && (!(op == BinOp::Div || op == BinOp::Modulo) || (old(
                self,
            ).handle_tp(h as int) != NDArrayType::Bool && binop_scalar_defined(
                op,
                old(self).handle_elems(h as int),
                scalar,
                reverse,
            ))) ==> r is Ok,
            r is Ok ==> {
                let h2 = r.unwrap() as int;
                &&& old(self).live(h as int)
                &&& final(self).is_owned(h2)
                &&& final(self).handle_tp(h2) == binop_result_type(
                    op,
                    old(self).handle_tp(h as int),
                    vtype(scalar),
                )
                &&& final(self).handle_shape(h2) == old(self).handle_shape(h as int)
                &&& final(self).handle_elems(h2) =~= binop_scalar_seq(
                    op,
                    old(self).handle_elems(h as int),
                    scalar,
                    reverse,
                )
                &&& final(self).slots@.len() == old(self).slots@.len() + 1
                &&& final(self).entry(r.unwrap() as int).views@.len() == 0
                &&& forall|h3: int|
                    0 <= h3 < old(self).slots@.len() ==> final(self).slots@[h3] == old(
                        self,
                    ).slots@[h3]
            },
    {
        let a = match self.handle_data(h) {
            Ok(a) => a,
            Err(e) => {
                return Err(e);
            },
        };
        if matches!(op, BinOp::Div) || matches!(op, BinOp::Modulo) {
            if a.tp_exec() == NDArrayType::Bool {
                return Err(RyndError::IncompatibleType);
            }
            let pt = promote_exec(a.tp_exec(), value_type(&scalar));
            if pt == NDArrayType::Int {
                if !reverse {
                    let y = crate::value::as_int_exec(&scalar);
                    let n = a.data.len();
                    let mut i: usize = 0;
                    let mut bad = false;
                    while i < n
                        invariant
                            0 <= i <= n,
                            a.wf(),
                            n == a.elems().len(),
                            y == as_int(scalar),
                            promote(a.tp(), vtype(scalar)) == NDArrayType::Int,
                            op == BinOp::Div || op == BinOp::Modulo,
                            !bad ==> forall|k: int|
                                0 <= k < i ==> binop_defined(op, #[trigger] a.elems()[k], scalar),
                            bad ==> exists|k: int|
                                0 <= k < i && !binop_defined(
                                    op,
                                    #[trigger] a.elems()[k],
                                    scalar,
                                ),
                        decreases n - i,
                    {
                        let x = a.data.get(i);
                        let xv = crate::value::as_int_exec(&x);
                        if !bad && (y == 0 || (xv == i64::MIN && y == -1)) {
                            bad = true;
                            proof {
                                crate::algorithms::lemma_buffer_typed(&a.data);
                                assert(vtype(a.elems()[i as int]) == a.tp());
                                assert(!binop_defined(op, a.elems()[i as int], scalar));
                            }
                        }
                        i += 1;
                    }
                    if bad {
                        return Err(RyndError::UnsupportedOperation);
                    }
                } else {
                    // the elements divide the scalar: every element must be a
                    // safe divisor
                    let n = a.data.len();
                    let mut i: usize = 0;
                    let mut bad = false;
                    while i < n
                        invariant
                            0 <= i <= n,
                            a.wf(),
                            n == a.elems().len(),
                            promote(a.tp(), vtype(scalar)) == NDArrayType::Int,
                            op == BinOp::Div || op == BinOp::Modulo,
                            !bad ==> forall|k: int|
                                0 <= k < i ==> binop_defined(op, scalar, #[trigger] a.elems()[k]),
                            bad ==> exists|k: int|
                                0 <= k < i && !binop_defined(
                                    op,
                                    scalar,
                                    #[trigger] a.elems()[k],
                                ),
                        decreases n - i,
                    {
                        let x = a.data.get(i);
                        let xv = crate::value::as_int_exec(&x);
                        let sv = crate::value::as_int_exec(&scalar);
                        if !bad && (xv == 0 || (sv == i64::MIN && xv == -1)) {
                            bad = true;
                            proof {
                                crate::algorithms::lemma_buffer_typed(&a.data);
                                assert(vtype(a.elems()[i as int]) == a.tp());
                                assert(!binop_defined(op, scalar, a.elems()[i as int]));
                            }
                        }
                        i += 1;
                    }
                    if bad {
                        return Err(RyndError::UnsupportedOperation);
                    }
                }
            }
        }
        proof {
            crate::algorithms::lemma_buffer_typed(&a.data);
            assert(binop_scalar_defined(op, a.elems(), scalar, reverse)) by {
                assert forall|k: int|
                    0 <= k < a.elems().len() implies (if reverse {
                    binop_defined(op, scalar, #[trigger] a.elems()[k])
                } else {
                    binop_defined(op, #[trigger] a.elems()[k], scalar)
                }) by {
                    assert(vtype(a.elems()[k]) == a.tp());
                }
            }
        }
        let out = match binop_scalar(op, &a, scalar, reverse) {
            Ok(o) => o,
            Err(e) => {
                return Err(e);
            },
        };
        let h2 = self.register_and_leak(out);
        Ok(h2)
    }

    /// One element read as a machine integer, however the array is typed.
    pub fn get_i64(&self, h: usize, idx: usize) -> (r: Result<i64, RyndError>)
        requires
            self.wf(),
        ensures
            self.live(h as int) && (idx as int) < self.handle_elems(h as int).len() ==> r == Ok::<
                i64,
                RyndError,
            >(as_int(self.handle_elems(h as int)[idx as int])),
            !self.live(h as int) ==> r == Err::<i64, RyndError>(RyndError::DeletedHandle),
    {
        match self.get_value(h, idx) {
            Ok(v) => Ok(crate::value::as_int_exec(&v)),
            Err(e) => Err(e),
        }
    }

    /// One element read as binary64 bits, however the array is typed.
    pub fn get_f64(&self, h: usize, idx: usize) -> (r: Result<u64, RyndError>)
        requires
            self.wf(),
        ensures
            self.live(h as int) && (idx as int) < self.handle_elems(h as int).len() ==> r == Ok::<
                u64,
                RyndError,
            >(crate::value::as_float_bits(self.handle_elems(h as int)[idx as int])),
            !self.live(h as int) ==> r == Err::<u64, RyndError>(RyndError::DeletedHandle),
    {
        match self.get_value(h, idx) {
            Ok(v) => Ok(crate::value::as_float_bits_exec(&v)),
            Err(e) => Err(e),
        }
    }

    /// One element read as a boolean: zero is false, all else true.
    pub fn get_bool(&self, h: usize, idx: usize) -> (r: Result<bool, RyndError>)
        requires
            self.wf(),
        ensures
            self.live(h as int) && (idx as int) < self.handle_elems(h as int).len() ==> r == Ok::<
                bool,
                RyndError,
            >(crate::value::as_bool(self.handle_elems(h as int)[idx as int])),
            !self.live(h as int) ==> r == Err::<bool, RyndError>(RyndError::DeletedHandle),
    {
        match self.get_value(h, idx) {
            Ok(v) => Ok(crate::value::as_bool_exec(&v)),
            Err(e) => Err(e),
        }
    }

    pub fn assign_scalar_i64(&mut self, dst: usize, v: i64) -> (r: Result<(), RyndError>)
        requires
            old(self).wf(),
        ensures
            final(self).wf(),
            r is Err ==> final(self).slots@ == old(self).slots@,
            old(self).live(dst as int) ==> r is Ok && MemoryManager::write_frame(
                *old(self),
                *final(self),
                dst as int,
            ) && final(self).handle_elems(dst as int) =~= Seq::new(
                old(self).handle_elems(dst as int).len(),
                |i: int| cast_spec(Value::Int(v), old(self).handle_tp(dst as int)),
            ),
    {
        self.assign_scalar(dst, Value::Int(v))
    }

    pub fn assign_scalar_f64(&mut self, dst: usize, bits: u64) -> (r: Result<(), RyndError>)
        requires
            old(self).wf(),
        ensures
            final(self).wf(),
            r is Err ==> final(self).slots@ == old(self).slots@,
            old(self).live(dst as int) ==> r is Ok && MemoryManager::write_frame(
                *old(self),
                *final(self),
                dst as int,
            ) && final(self).handle_elems(dst as int) =~= Seq::new(
                old(self).handle_elems(dst as int).len(),
                |i: int| cast_spec(Value::Float(bits), old(self).handle_tp(dst as int)),
            ),
    {
        self.assign_scalar(dst, Value::Float(bits))
    }
}


impl MemoryManager {

    /// Elementwise `sum` against one scalar (machine integer); `reverse`
    /// puts the scalar on the left.
    pub fn sum_scalar_i64(&mut self, h: usize, v: i64, reverse: bool) -> (r: Result<
        usize,
        RyndError,
    >)
        requires
            old(self).wf(),
            old(self).slots@.len() < usize::MAX,
        ensures
            final(self).wf(),
            r is Err ==> final(self).slots@ == old(self).slots@,
            !old(self).live(h as int) ==> r == Err::<usize, RyndError>(RyndError::DeletedHandle),
            old(self).live(h as int) && (BinOp::Sum == BinOp::Div || BinOp::Sum
                == BinOp::Modulo) && old(self).handle_tp(h as int) == NDArrayType::Bool ==> r
                == Err::<usize, RyndError>(RyndError::IncompatibleType),
            old(self).live(h as int) && (!(BinOp::Sum == BinOp::Div || BinOp::Sum
                == BinOp::Modulo) || (old(self).handle_tp(h as int) != NDArrayType::Bool
                && binop_scalar_defined(
                BinOp::Sum,
                old(self).handle_elems(h as int),
                Value::Int(v),
                reverse,
            ))) ==> r is Ok,
            r is Ok ==> {
                let h2 = r.unwrap() as int;
                &&& final(self).is_owned(h2)
                &&& final(self).handle_tp(h2) == binop_result_type(
                    BinOp::Sum,
                    old(self).handle_tp(h as int),
                    vtype(Value::Int(v)),
                )
                &&& final(self).handle_shape(h2) == old(self).handle_shape(h as int)
                &&& final(self).handle_elems(h2) =~= binop_scalar_seq(
                    BinOp::Sum,
                    old(self).handle_elems(h as int),
                    Value::Int(v),
                    reverse,
                )
                &&& final(self).slots@.len() == old(self).slots@.len() + 1
                &&& final(self).entry(r.unwrap() as int).views@.len() == 0
                &&& forall|h3: int|
                    0 <= h3 < old(self).slots@.len() ==> final(self).slots@[h3] == old(
                        self,
                    ).slots@[h3]
            },
    {
        self.binop_scalar(BinOp::Sum, h, Value::Int(v), reverse)
    }

    /// Elementwise `sum` against one scalar (bits of a double); `reverse`
    /// puts the scalar on the left.
    pub fn sum_scalar_f64(&mut self, h: usize, v: u64, reverse: bool) -> (r: Result<
        usize,
        RyndError,
    >)
        requires
            old(self).wf(),
            old(self).slots@.len() < usize::MAX,
        ensures
            final(self).wf(),
            r is Err ==> final(self).slots@ == old(self).slots@,
            !old(self).live(h as int) ==> r == Err::<usize, RyndError>(RyndError::DeletedHandle),
            old(self).live(h as int) && (BinOp::Sum == BinOp::Div || BinOp::Sum
                == BinOp::Modulo) && old(self).handle_tp(h as int) == NDArrayType::Bool ==> r
                == Err::<usize, RyndError>(RyndError::IncompatibleType),
            old(self).live(h as int) && (!(BinOp::Sum == BinOp::Div || BinOp::Sum
                == BinOp::Modulo) || (old(self).handle_tp(h as int) != NDArrayType::Bool
                && binop_scalar_defined(
                BinOp::Sum,
                old(self).handle_elems(h as int),
                Value::Float(v),
                reverse,
            ))) ==> r is Ok,
            r is Ok ==> {
                let h2 = r.unwrap() as int;
                &&& final(self).is_owned(h2)
                &&& final(self).handle_tp(h2) == binop_result_type(
                    BinOp::Sum,
                    old(self).handle_tp(h as int),
                    vtype(Value::Float(v)),
                )
                &&& final(self).handle_shape(h2) == old(self).handle_shape(h as int)
                &&& final(self).handle_elems(h2) =~= binop_scalar_seq(
                    BinOp::Sum,
                    old(self).handle_elems(h as int),
                    Value::Float(v),
                    reverse,
                )
                &&& final(self).slots@.len() == old(self).slots@.len() + 1
                &&& final(self).entry(r.unwrap() as int).views@.len() == 0
                &&& forall|h3: int|
                    0 <= h3 < old(self).slots@.len() ==> final(self).slots@[h3] == old(
                        self,
                    ).slots@[h3]
            },
    {
        self.binop_scalar(BinOp::Sum, h, Value::Float(v), reverse)
    }

    /// Elementwise `sub` against one scalar (machine integer); `reverse`
    /// puts the scalar on the left.
    pub fn sub_scalar_i64(&mut self, h: usize, v: i64, reverse: bool) -> (r: Result<
        usize,
        RyndError,
    >)
        requires
            old(self).wf(),
            old(self).slots@.len() < usize::MAX,
        ensures
            final(self).wf(),
            r is Err ==> final(self).slots@ == old(self).slots@,
            !old(self).live(h as int) ==> r == Err::<usize, RyndError>(RyndError::DeletedHandle),
            old(self).live(h as int) && (BinOp::Sub == BinOp::Div || BinOp::Sub
                == BinOp::Modulo) && old(self).handle_tp(h as int) == NDArrayType::Bool ==> r
                == Err::<usize, RyndError>(RyndError::IncompatibleType),
            old(self).live(h as int) && (!(BinOp::Sub == BinOp::Div || BinOp::Sub
                == BinOp::Modulo) || (old(self).handle_tp(h as int) != NDArrayType::Bool
                && binop_scalar_defined(
                BinOp::Sub,
                old(self).handle_elems(h as int),
                Value::Int(v),
                reverse,
            ))) ==> r is Ok,
            r is Ok ==> {
                let h2 = r.unwrap() as int;
                &&& final(self).is_owned(h2)
                &&& final(self).handle_tp(h2) == binop_result_type(
                    BinOp::Sub,
                    old(self).handle_tp(h as int),
                    vtype(Value::Int(v)),
                )
                &&& final(self).handle_shape(h2) == old(self).handle_shape(h as int)
                &&& final(self).handle_elems(h2) =~= binop_scalar_seq(
                    BinOp::Sub,
                    old(self).handle_elems(h as int),
                    Value::Int(v),
                    reverse,
                )
                &&& final(self).slots@.len() == old(self).slots@.len() + 1
                &&& final(self).entry(r.unwrap() as int).views@.len() == 0
                &&& forall|h3: int|
                    0 <= h3 < old(self).slots@.len() ==> final(self).slots@[h3] == old(
                        self,
                    ).slots@[h3]
            },
    {
        self.binop_scalar(BinOp::Sub, h, Value::Int(v), reverse)
    }

    /// Elementwise `sub` against one scalar (bits of a double); `reverse`
    /// puts the scalar on the left.
    pub fn sub_scalar_f64(&mut self, h: usize, v: u64, reverse: bool) -> (r: Result<
        usize,
        RyndError,
    >)
        requires
            old(self).wf(),
            old(self).slots@.len() < usize::MAX,
        ensures
            final(self).wf(),
            r is Err ==> final(self).slots@ == old(self).slots@,
            !old(self).live(h as int) ==> r == Err::<usize, RyndError>(RyndError::DeletedHandle),
            old(self).live(h as int) && (BinOp::Sub == BinOp::Div || BinOp::Sub
                == BinOp::Modulo) && old(self).handle_tp(h as int) == NDArrayType::Bool ==> r
                == Err::<usize, RyndError>(RyndError::IncompatibleType),
            old(self).live(h as int) && (!(BinOp::Sub == BinOp::Div || BinOp::Sub
                == BinOp::Modulo) || (old(self).handle_tp(h as int) != NDArrayType::Bool
                && binop_scalar_defined(
                BinOp::Sub,
                old(self).handle_elems(h as int),
                Value::Float(v),
                reverse,
            ))) ==> r is Ok,
            r is Ok ==> {
                let h2 = r.unwrap() as int;
                &&& final(self).is_owned(h2)
                &&& final(self).handle_tp(h2) == binop_result_type(
                    BinOp::Sub,
                    old(self).handle_tp(h as int),
                    vtype(Value::Float(v)),
                )
                &&& final(self).handle_shape(h2) == old(self).handle_shape(h as int)
                &&& final(self).handle_elems(h2) =~= binop_scalar_seq(
                    BinOp::Sub,
                    old(self).handle_elems(h as int),
                    Value::Float(v),
                    reverse,
                )
                &&& final(self).slots@.len() == old(self).slots@.len() + 1
                &&& final(self).entry(r.unwrap() as int).views@.len() == 0
                &&& forall|h3: int|
                    0 <= h3 < old(self).slots@.len() ==> final(self).slots@[h3] == old(
                        self,
                    ).slots@[h3]
            },
    {
        self.binop_scalar(BinOp::Sub, h, Value::Float(v), reverse)
    }

    /// Elementwise `mul` against one scalar (machine integer); `reverse`
    /// puts the scalar on the left.
    pub fn mul_scalar_i64(&mut self, h: usize, v: i64, reverse: bool) -> (r: Result<
        usize,
        RyndError,
    >)
        requires
            old(self).wf(),
            old(self).slots@.len() < usize::MAX,
        ensures
            final(self).wf(),
            r is Err ==> final(self).slots@ == old(self).slots@,
            !old(self).live(h as int) ==> r == Err::<usize, RyndError>(RyndError::DeletedHandle),
            old(self).live(h as int) && (BinOp::Mul == BinOp::Div || BinOp::Mul
                == BinOp::Modulo) && old(self).handle_tp(h as int) == NDArrayType::Bool ==> r
                == Err::<usize, RyndError>(RyndError::IncompatibleType),
            old(self).live(h as int) && (!(BinOp::Mul == BinOp::Div || BinOp::Mul
                == BinOp::Modulo) || (old(self).handle_tp(h as int) != NDArrayType::Bool
                && binop_scalar_defined(
                BinOp::Mul,
                old(self).handle_elems(h as int),
                Value::Int(v),
                reverse,
            ))) ==> r is Ok,
            r is Ok ==> {
                let h2 = r.unwrap() as int;
                &&& final(self).is_owned(h2)
                &&& final(self).handle_tp(h2) == binop_result_type(
                    BinOp::Mul,
                    old(self).handle_tp(h as int),
                    vtype(Value::Int(v)),
                )
                &&& final(self).handle_shape(h2) == old(self).handle_shape(h as int)
                &&& final(self).handle_elems(h2) =~= binop_scalar_seq(
                    BinOp::Mul,
                    old(self).handle_elems(h as int),
                    Value::Int(v),
                    reverse,
                )
                &&& final(self).slots@.len() == old(self).slots@.len() + 1
                &&& final(self).entry(r.unwrap() as int).views@.len() == 0
                &&& forall|h3: int|
                    0 <= h3 < old(self).slots@.len() ==> final(self).slots@[h3] == old(
                        self,
                    ).slots@[h3]
            },
    {
        self.binop_scalar(BinOp::Mul, h, Value::Int(v), reverse)
    }

    /// Elementwise `mul` against one scalar (bits of a double); `reverse`
    /// puts the scalar on the left.
    pub fn mul_scalar_f64(&mut self, h: usize, v: u64, reverse: bool) -> (r: Result<
        usize,
        RyndError,
    >)
        requires
            old(self).wf(),
            old(self).slots@.len() < usize::MAX,
        ensures
            final(self).wf(),
            r is Err ==> final(self).slots@ == old(self).slots@,
            !old(self).live(h as int) ==> r == Err::<usize, RyndError>(RyndError::DeletedHandle),
            old(self).live(h as int) && (BinOp::Mul == BinOp::Div || BinOp::Mul
                == BinOp::Modulo) && old(self).handle_tp(h as int) == NDArrayType::Bool ==> r
                == Err::<usize, RyndError>(RyndError::IncompatibleType),
            old(self).live(h as int) && (!(BinOp::Mul == BinOp::Div || BinOp::Mul
                == BinOp::Modulo) || (old(self).handle_tp(h as int) != NDArrayType::Bool
                && binop_scalar_defined(
                BinOp::Mul,
                old(self).handle_elems(h as int),
                Value::Float(v),
                reverse,
            ))) ==> r is Ok,
            r is Ok ==> {
                let h2 = r.unwrap() as int;
                &&& final(self).is_owned(h2)
                &&& final(self).handle_tp(h2) == binop_result_type(
                    BinOp::Mul,
                    old(self).handle_tp(h as int),
                    vtype(Value::Float(v)),
                )
                &&& final(self).handle_shape(h2) == old(self).handle_shape(h as int)
                &&& final(self).handle_elems(h2) =~= binop_scalar_seq(
                    BinOp::Mul,
                    old(self).handle_elems(h as int),
                    Value::Float(v),
                    reverse,
                )
                &&& final(self).slots@.len() == old(self).slots@.len() + 1
                &&& final(self).entry(r.unwrap() as int).views@.len() == 0
                &&& forall|h3: int|
                    0 <= h3 < old(self).slots@.len() ==> final(self).slots@[h3] == old(
                        self,
                    ).slots@[h3]
            },
    {
        self.binop_scalar(BinOp::Mul, h, Value::Float(v), reverse)
    }

    /// Elementwise `div` against one scalar (machine integer); `reverse`
    /// puts the scalar on the left.
    pub fn div_scalar_i64(&mut self, h: usize, v: i64, reverse: bool) -> (r: Result<
        usize,
        RyndError,
    >)
        requires
            old(self).wf(),
            old(self).slots@.len() < usize::MAX,
        ensures
            final(self).wf(),
            r is Err ==> final(self).slots@ == old(self).slots@,
            !old(self).live(h as int) ==> r == Err::<usize, RyndError>(RyndError::DeletedHandle),
            old(self).live(h as int) && (BinOp::Div == BinOp::Div || BinOp::Div
                == BinOp::Modulo) && old(self).handle_tp(h as int) == NDArrayType::Bool ==> r
                == Err::<usize, RyndError>(RyndError::IncompatibleType),
            old(self).live(h as int) && (!(BinOp::Div == BinOp::Div || BinOp::Div
                == BinOp::Modulo) || (old(self).handle_tp(h as int) != NDArrayType::Bool
                && binop_scalar_defined(
                BinOp::Div,
                old(self).handle_elems(h as int),
                Value::Int(v),
                reverse,
            ))) ==> r is Ok,
            r is Ok ==> {
                let h2 = r.unwrap() as int;
                &&& final(self).is_owned(h2)
                &&& final(self).handle_tp(h2) == binop_result_type(
                    BinOp::Div,
                    old(self).handle_tp(h as int),
                    vtype(Value::Int(v)),
                )
                &&& final(self).handle_shape(h2) == old(self).handle_shape(h as int)
                &&& final(self).handle_elems(h2) =~= binop_scalar_seq(
                    BinOp::Div,
                    old(self).handle_elems(h as int),
                    Value::Int(v),
                    reverse,
                )
                &&& final(self).slots@.len() == old(self).slots@.len() + 1
                &&& final(self).entry(r.unwrap() as int).views@.len() == 0
                &&& forall|h3: int|
                    0 <= h3 < old(self).slots@.len() ==> final(self).slots@[h3] == old(
                        self,
                    ).slots@[h3]
            },
    {
        self.binop_scalar(BinOp::Div, h, Value::Int(v), reverse)
    }

    /// Elementwise `div` against one scalar (bits of a double); `reverse`
    /// puts the scalar on the left.
    pub fn div_scalar_f64(&mut self, h: usize, v: u64, reverse: bool) -> (r: Result<
        usize,
        RyndError,
    >)
        requires
            old(self).wf(),
            old(self).slots@.len() < usize::MAX,
        ensures
            final(self).wf(),
            r is Err ==> final(self).slots@ == old(self).slots@,
            !old(self).live(h as int) ==> r == Err::<usize, RyndError>(RyndError::DeletedHandle),
            old(self).live(h as int) && (BinOp::Div == BinOp::Div || BinOp::Div
                == BinOp::Modulo) && old(self).handle_tp(h as int) == NDArrayType::Bool ==> r
                == Err::<usize, RyndError>(RyndError::IncompatibleType),
            old(self).live(h as int) && (!(BinOp::Div == BinOp::Div || BinOp::Div
                == BinOp::Modulo) || (old(self).handle_tp(h as int) != NDArrayType::Bool
                && binop_scalar_defined(
                BinOp::Div,
                old(self).handle_elems(h as int),
                Value::Float(v),
                reverse,
            ))) ==> r is Ok,
            r is Ok ==> {
                let h2 = r.unwrap() as int;
                &&& final(self).is_owned(h2)
                &&& final(self).handle_tp(h2) == binop_result_type(
                    BinOp::Div,
                    old(self).handle_tp(h as int),
                    vtype(Value::Float(v)),
                )
                &&& final(self).handle_shape(h2) == old(self).handle_shape(h as int)
                &&& final(self).handle_elems(h2) =~= binop_scalar_seq(
                    BinOp::Div,
                    old(self).handle_elems(h as int),
                    Value::Float(v),
                    reverse,
                )
                &&& final(self).slots@.len() == old(self).slots@.len() + 1
                &&& final(self).entry(r.unwrap() as int).views@.len() == 0
                &&& forall|h3: int|
                    0 <= h3 < old(self).slots@.len() ==> final(self).slots@[h3] == old(
                        self,
                    ).slots@[h3]
            },
    {
        self.binop_scalar(BinOp::Div, h, Value::Float(v), reverse)
    }

    /// Elementwise `mod` against one scalar (machine integer); `reverse`
    /// puts the scalar on the left.
    pub fn mod_scalar_i64(&mut self, h: usize, v: i64, reverse: bool) -> (r: Result<
        usize,
        RyndError,
    >)
        requires
            old(self).wf(),
            old(self).slots@.len() < usize::MAX,
        ensures
            final(self).wf(),
            r is Err ==> final(self).slots@ == old(self).slots@,
            !old(self).live(h as int) ==> r == Err::<usize, RyndError>(RyndError::DeletedHandle),
            old(self).live(h as int) && (BinOp::Modulo == BinOp::Div || BinOp::Modulo
                == BinOp::Modulo) && old(self).handle_tp(h as int) == NDArrayType::Bool ==> r
                == Err::<usize, RyndError>(RyndError::IncompatibleType),
            old(self).live(h as int) && (!(BinOp::Modulo == BinOp::Div || BinOp::Modulo
                == BinOp::Modulo) || (old(self).handle_tp(h as int) != NDArrayType::Bool
                && binop_scalar_defined(
                BinOp::Modulo,
                old(self).handle_elems(h as int),
                Value::Int(v),
                reverse,
            ))) ==> r is Ok,
            r is Ok ==> {
                let h2 = r.unwrap() as int;
                &&& final(self).is_owned(h2)
                &&& final(self).handle_tp(h2) == binop_result_type(
                    BinOp::Modulo,
                    old(self).handle_tp(h as int),
                    vtype(Value::Int(v)),
                )
                &&& final(self).handle_shape(h2) == old(self).handle_shape(h as int)
                &&& final(self).handle_elems(h2) =~= binop_scalar_seq(
                    BinOp::Modulo,
                    old(self).handle_elems(h as int),
                    Value::Int(v),
                    reverse,
                )
                &&& final(self).slots@.len() == old(self).slots@.len() + 1
                &&& final(self).entry(r.unwrap() as int).views@.len() == 0
                &&& forall|h3: int|
                    0 <= h3 < old(self).slots@.len() ==> final(self).slots@[h3] == old(
                        self,
                    ).slots@[h3]
            },
    {
        self.binop_scalar(BinOp::Modulo, h, Value::Int(v), reverse)
    }

    /// Elementwise `mod` against one scalar (bits of a double); `reverse`
    /// puts the scalar on the left.
    pub fn mod_scalar_f64(&mut self, h: usize, v: u64, reverse: bool) -> (r: Result<
        usize,
        RyndError,
    >)
        requires
            old(self).wf(),
            old(self).slots@.len() < usize::MAX,
        ensures
            final(self).wf(),
            r is Err ==> final(self).slots@ == old(self).slots@,
            !old(self).live(h as int) ==> r == Err::<usize, RyndError>(RyndError::DeletedHandle),
            old(self).live(h as int) && (BinOp::Modulo == BinOp::Div || BinOp::Modulo
                == BinOp::Modulo) && old(self).handle_tp(h as int) == NDArrayType::Bool ==> r
                == Err::<usize, RyndError>(RyndError::IncompatibleType),
            old(self).live(h as int) && (!(BinOp::Modulo == BinOp::Div || BinOp::Modulo
                == BinOp::Modulo) || (old(self).handle_tp(h as int) != NDArrayType::Bool
                && binop_scalar_defined(
                BinOp::Modulo,
                old(self).handle_elems(h as int),
                Value::Float(v),
                reverse,
            ))) ==> r is Ok,
            r is Ok ==> {
                let h2 = r.unwrap() as int;
                &&& final(self).is_owned(h2)
                &&& final(self).handle_tp(h2) == binop_result_type(
                    BinOp::Modulo,
                    old(self).handle_tp(h as int),
                    vtype(Value::Float(v)),
                )
                &&& final(self).handle_shape(h2) == old(self).handle_shape(h as int)
                &&& final(self).handle_elems(h2) =~= binop_scalar_seq(
                    BinOp::Modulo,
                    old(self).handle_elems(h as int),
                    Value::Float(v),
                    reverse,
                )
                &&& final(self).slots@.len() == old(self).slots@.len() + 1
                &&& final(self).entry(r.unwrap() as int).views@.len() == 0
                &&& forall|h3: int|
                    0 <= h3 < old(self).slots@.len() ==> final(self).slots@[h3] == old(
                        self,
                    ).slots@[h3]
            },
    {
        self.binop_scalar(BinOp::Modulo, h, Value::Float(v), reverse)
    }

    /// Elementwise `eq` against one scalar (machine integer); `reverse`
    /// puts the scalar on the left.
    pub fn eq_scalar_i64(&mut self, h: usize, v: i64, reverse: bool) -> (r: Result<
        usize,
        RyndError,
    >)
        requires
            old(self).wf(),
            old(self).slots@.len() < usize::MAX,
        ensures
            final(self).wf(),
            r is Err ==> final(self).slots@ == old(self).slots@,
            !old(self).live(h as int) ==> r == Err::<usize, RyndError>(RyndError::DeletedHandle),
            old(self).live(h as int) && (BinOp::Eq == BinOp::Div || BinOp::Eq
                == BinOp::Modulo) && old(self).handle_tp(h as int) == NDArrayType::Bool ==> r
                == Err::<usize, RyndError>(RyndError::IncompatibleType),
            old(self).live(h as int) && (!(BinOp::Eq == BinOp::Div || BinOp::Eq
                == BinOp::Modulo) || (old(self).handle_tp(h as int) != NDArrayType::Bool
                && binop_scalar_defined(
                BinOp::Eq,
                old(self).handle_elems(h as int),
                Value::Int(v),
                reverse,
            ))) ==> r is Ok,
            r is Ok ==> {
                let h2 = r.unwrap() as int;
                &&& final(self).is_owned(h2)
                &&& final(self).handle_tp(h2) == binop_result_type(
                    BinOp::Eq,
                    old(self).handle_tp(h as int),
                    vtype(Value::Int(v)),
                )
                &&& final(self).handle_shape(h2) == old(self).handle_shape(h as int)
                &&& final(self).handle_elems(h2) =~= binop_scalar_seq(
                    BinOp::Eq,
                    old(self).handle_elems(h as int),
                    Value::Int(v),
                    reverse,
                )
                &&& final(self).slots@.len() == old(self).slots@.len() + 1
                &&& final(self).entry(r.unwrap() as int).views@.len() == 0
                &&& forall|h3: int|
                    0 <= h3 < old(self).slots@.len() ==> final(self).slots@[h3] == old(
                        self,
                    ).slots@[h3]
            },
    {
        self.binop_scalar(BinOp::Eq, h, Value::Int(v), reverse)
    }

    /// Elementwise `eq` against one scalar (bits of a double); `reverse`
    /// puts the scalar on the left.
    pub fn eq_scalar_f64(&mut self, h: usize, v: u64, reverse: bool) -> (r: Result<
        usize,
        RyndError,
    >)
        requires
            old(self).wf(),
            old(self).slots@.len() < usize::MAX,
        ensures
            final(self).wf(),
            r is Err ==> final(self).slots@ == old(self).slots@,
            !old(self).live(h as int) ==> r == Err::<usize, RyndError>(RyndError::DeletedHandle),
            old(self).live(h as int) && (BinOp::Eq == BinOp::Div || BinOp::Eq
                == BinOp::Modulo) && old(self).handle_tp(h as int) == NDArrayType::Bool ==> r
                == Err::<usize, RyndError>(RyndError::IncompatibleType),
            old(self).live(h as int) && (!(BinOp::Eq == BinOp::Div || BinOp::Eq
                == BinOp::Modulo) || (old(self).handle_tp(h as int) != NDArrayType::Bool
                && binop_scalar_defined(
                BinOp::Eq,
                old(self).handle_elems(h as int),
                Value::Float(v),
                reverse,
            ))) ==> r is Ok,
            r is Ok ==> {
                let h2 = r.unwrap() as int;
                &&& final(self).is_owned(h2)
                &&& final(self).handle_tp(h2) == binop_result_type(
                    BinOp::Eq,
                    old(self).handle_tp(h as int),
                    vtype(Value::Float(v)),
                )
                &&& final(self).handle_shape(h2) == old(self).handle_shape(h as int)
                &&& final(self).handle_elems(h2) =~= binop_scalar_seq(
                    BinOp::Eq,
                    old(self).handle_elems(h as int),
                    Value::Float(v),
                    reverse,
                )
                &&& final(self).slots@.len() == old(self).slots@.len() + 1
                &&& final(self).entry(r.unwrap() as int).views@.len() == 0
                &&& forall|h3: int|
                    0 <= h3 < old(self).slots@.len() ==> final(self).slots@[h3] == old(
                        self,
                    ).slots@[h3]
            },
    {
        self.binop_scalar(BinOp::Eq, h, Value::Float(v), reverse)
    }

    /// Elementwise `neq` against one scalar (machine integer); `reverse`
    /// puts the scalar on the left.
    pub fn neq_scalar_i64(&mut self, h: usize, v: i64, reverse: bool) -> (r: Result<
        usize,
        RyndError,
    >)
        requires
            old(self).wf(),
            old(self).slots@.len() < usize::MAX,
        ensures
            final(self).wf(),
            r is Err ==> final(self).slots@ == old(self).slots@,
            !old(self).live(h as int) ==> r == Err::<usize, RyndError>(RyndError::DeletedHandle),
            old(self).live(h as int) && (BinOp::Neq == BinOp::Div || BinOp::Neq
                == BinOp::Modulo) && old(self).handle_tp(h as int) == NDArrayType::Bool ==> r
                == Err::<usize, RyndError>(RyndError::IncompatibleType),
            old(self).live(h as int) && (!(BinOp::Neq == BinOp::Div || BinOp::Neq
                == BinOp::Modulo) || (old(self).handle_tp(h as int) != NDArrayType::Bool
                && binop_scalar_defined(
                BinOp::Neq,
                old(self).handle_elems(h as int),
                Value::Int(v),
                reverse,
            ))) ==> r is Ok,
            r is Ok ==> {
                let h2 = r.unwrap() as int;
                &&& final(self).is_owned(h2)
                &&& final(self).handle_tp(h2) == binop_result_type(
                    BinOp::Neq,
                    old(self).handle_tp(h as int),
                    vtype(Value::Int(v)),
                )
                &&& final(self).handle_shape(h2) == old(self).handle_shape(h as int)
                &&& final(self).handle_elems(h2) =~= binop_scalar_seq(
                    BinOp::Neq,
                    old(self).handle_elems(h as int),
                    Value::Int(v),
                    reverse,
                )
                &&& final(self).slots@.len() == old(self).slots@.len() + 1
                &&& final(self).entry(r.unwrap() as int).views@.len() == 0
                &&& forall|h3: int|
                    0 <= h3 < old(self).slots@.len() ==> final(self).slots@[h3] == old(
                        self,
                    ).slots@[h3]
            },
    {
        self.binop_scalar(BinOp::Neq, h, Value::Int(v), reverse)
    }

    /// Elementwise `neq` against one scalar (bits of a double); `reverse`
    /// puts the scalar on the left.
    pub fn neq_scalar_f64(&mut self, h: usize, v: u64, reverse: bool) -> (r: Result<
        usize,
        RyndError,
    >)
        requires
            old(self).wf(),
            old(self).slots@.len() < usize::MAX,
        ensures
            final(self).wf(),
            r is Err ==> final(self).slots@ == old(self).slots@,
            !old(self).live(h as int) ==> r == Err::<usize, RyndError>(RyndError::DeletedHandle),
            old(self).live(h as int) && (BinOp::Neq == BinOp::Div || BinOp::Neq
                == BinOp::Modulo) && old(self).handle_tp(h as int) == NDArrayType::Bool ==> r
                == Err::<usize, RyndError>(RyndError::IncompatibleType),
            old(self).live(h as int) && (!(BinOp::Neq == BinOp::Div || BinOp::Neq
                == BinOp::Modulo) || (old(self).handle_tp(h as int) != NDArrayType::Bool
                && binop_scalar_defined(
                BinOp::Neq,
                old(self).handle_elems(h as int),
                Value::Float(v),
                reverse,
            ))) ==> r is Ok,
            r is Ok ==> {
                let h2 = r.unwrap() as int;
                &&& final(self).is_owned(h2)
                &&& final(self).handle_tp(h2) == binop_result_type(
                    BinOp::Neq,
                    old(self).handle_tp(h as int),
                    vtype(Value::Float(v)),
                )
                &&& final(self).handle_shape(h2) == old(self).handle_shape(h as int)
                &&& final(self).handle_elems(h2) =~= binop_scalar_seq(
                    BinOp::Neq,
                    old(self).handle_elems(h as int),
                    Value::Float(v),
                    reverse,
                )
                &&& final(self).slots@.len() == old(self).slots@.len() + 1
                &&& final(self).entry(r.unwrap() as int).views@.len() == 0
                &&& forall|h3: int|
                    0 <= h3 < old(self).slots@.len() ==> final(self).slots@[h3] == old(
                        self,
                    ).slots@[h3]
            },
    {
        self.binop_scalar(BinOp::Neq, h, Value::Float(v), reverse)
    }

    /// Elementwise `lt` against one scalar (machine integer); `reverse`
    /// puts the scalar on the left.
    pub fn lt_scalar_i64(&mut self, h: usize, v: i64, reverse: bool) -> (r: Result<
        usize,
        RyndError,
    >)
        requires
            old(self).wf(),
            old(self).slots@.len() < usize::MAX,
        ensures
            final(self).wf(),
            r is Err ==> final(self).slots@ == old(self).slots@,
            !old(self).live(h as int) ==> r == Err::<usize, RyndError>(RyndError::DeletedHandle),
            old(self).live(h as int) && (BinOp::Lt == BinOp::Div || BinOp::Lt
                == BinOp::Modulo) && old(self).handle_tp(h as int) == NDArrayType::Bool ==> r
                == Err::<usize, RyndError>(RyndError::IncompatibleType),
            old(self).live(h as int) && (!(BinOp::Lt == BinOp::Div || BinOp::Lt
                == BinOp::Modulo) || (old(self).handle_tp(h as int) != NDArrayType::Bool
                && binop_scalar_defined(
                BinOp::Lt,
                old(self).handle_elems(h as int),
                Value::Int(v),
                reverse,
            ))) ==> r is Ok,
            r is Ok ==> {
                let h2 = r.unwrap() as int;
                &&& final(self).is_owned(h2)
                &&& final(self).handle_tp(h2) == binop_result_type(
                    BinOp::Lt,
                    old(self).handle_tp(h as int),
                    vtype(Value::Int(v)),
                )
                &&& final(self).handle_shape(h2) == old(self).handle_shape(h as int)
                &&& final(self).handle_elems(h2) =~= binop_scalar_seq(
                    BinOp::Lt,
                    old(self).handle_elems(h as int),
                    Value::Int(v),
                    reverse,
                )
                &&& final(self).slots@.len() == old(self).slots@.len() + 1
                &&& final(self).entry(r.unwrap() as int).views@.len() == 0
                &&& forall|h3: int|
                    0 <= h3 < old(self).slots@.len() ==> final(self).slots@[h3] == old(
                        self,
                    ).slots@[h3]
            },
    {
        self.binop_scalar(BinOp::Lt, h, Value::Int(v), reverse)
    }

    /// Elementwise `lt` against one scalar (bits of a double); `reverse`
    /// puts the scalar on the left.
    pub fn lt_scalar_f64(&mut self, h: usize, v: u64, reverse: bool) -> (r: Result<
        usize,
        RyndError,
    >)
        requires
            old(self).wf(),
            old(self).slots@.len() < usize::MAX,
        ensures
            final(self).wf(),
            r is Err ==> final(self).slots@ == old(self).slots@,
            !old(self).live(h as int) ==> r == Err::<usize, RyndError>(RyndError::DeletedHandle),
            old(self).live(h as int) && (BinOp::Lt == BinOp::Div || BinOp::Lt
                == BinOp::Modulo) && old(self).handle_tp(h as int) == NDArrayType::Bool ==> r
                == Err::<usize, RyndError>(RyndError::IncompatibleType),
            old(self).live(h as int) && (!(BinOp::Lt == BinOp::Div || BinOp::Lt
                == BinOp::Modulo) || (old(self).handle_tp(h as int) != NDArrayType::Bool
                && binop_scalar_defined(
                BinOp::Lt,
                old(self).handle_elems(h as int),
                Value::Float(v),
                reverse,
            ))) ==> r is Ok,
            r is Ok ==> {
                let h2 = r.unwrap() as int;
                &&& final(self).is_owned(h2)
                &&& final(self).handle_tp(h2) == binop_result_type(
                    BinOp::Lt,
                    old(self).handle_tp(h as int),
                    vtype(Value::Float(v)),
                )
                &&& final(self).handle_shape(h2) == old(self).handle_shape(h as int)
                &&& final(self).handle_elems(h2) =~= binop_scalar_seq(
                    BinOp::Lt,
                    old(self).handle_elems(h as int),
                    Value::Float(v),
                    reverse,
                )
                &&& final(self).slots@.len() == old(self).slots@.len() + 1
                &&& final(self).entry(r.unwrap() as int).views@.len() == 0
                &&& forall|h3: int|
                    0 <= h3 < old(self).slots@.len() ==> final(self).slots@[h3] == old(
                        self,
                    ).slots@[h3]
            },
    {
        self.binop_scalar(BinOp::Lt, h, Value::Float(v), reverse)
    }

    /// Elementwise `gt` against one scalar (machine integer); `reverse`
    /// puts the scalar on the left.
    pub fn gt_scalar_i64(&mut self, h: usize, v: i64, reverse: bool) -> (r: Result<
        usize,
        RyndError,
    >)
        requires
            old(self).wf(),
            old(self).slots@.len() < usize::MAX,
        ensures
            final(self).wf(),
            r is Err ==> final(self).slots@ == old(self).slots@,
            !old(self).live(h as int) ==> r == Err::<usize, RyndError>(RyndError::DeletedHandle),
            old(self).live(h as int) && (BinOp::Gt == BinOp::Div || BinOp::Gt
                == BinOp::Modulo) && old(self).handle_tp(h as int) == NDArrayType::Bool ==> r
                == Err::<usize, RyndError>(RyndError::IncompatibleType),
            old(self).live(h as int) && (!(BinOp::Gt == BinOp::Div || BinOp::Gt
                == BinOp::Modulo) || (old(self).handle_tp(h as int) != NDArrayType::Bool
                && binop_scalar_defined(
                BinOp::Gt,
                old(self).handle_elems(h as int),
                Value::Int(v),
                reverse,
            ))) ==> r is Ok,
            r is Ok ==> {
                let h2 = r.unwrap() as int;
                &&& final(self).is_owned(h2)
                &&& final(self).handle_tp(h2) == binop_result_type(
                    BinOp::Gt,
                    old(self).handle_tp(h as int),
                    vtype(Value::Int(v)),
                )
                &&& final(self).handle_shape(h2) == old(self).handle_shape(h as int)
                &&& final(self).handle_elems(h2) =~= binop_scalar_seq(
                    BinOp::Gt,
                    old(self).handle_elems(h as int),
                    Value::Int(v),
                    reverse,
                )
                &&& final(self).slots@.len() == old(self).slots@.len() + 1
                &&& final(self).entry(r.unwrap() as int).views@.len() == 0
                &&& forall|h3: int|
                    0 <= h3 < old(self).slots@.len() ==> final(self).slots@[h3] == old(
                        self,
                    ).slots@[h3]
            },
    {
        self.binop_scalar(BinOp::Gt, h, Value::Int(v), reverse)
    }

    /// Elementwise `gt` against one scalar (bits of a double); `reverse`
    /// puts the scalar on the left.
    pub fn gt_scalar_f64(&mut self, h: usize, v: u64, reverse: bool) -> (r: Result<
        usize,
        RyndError,
    >)
        requires
            old(self).wf(),
            old(self).slots@.len() < usize::MAX,
        ensures
            final(self).wf(),
            r is Err ==> final(self).slots@ == old(self).slots@,
            !old(self).live(h as int) ==> r == Err::<usize, RyndError>(RyndError::DeletedHandle),
            old(self).live(h as int) && (BinOp::Gt == BinOp::Div || BinOp::Gt
                == BinOp::Modulo) && old(self).handle_tp(h as int) == NDArrayType::Bool ==> r
                == Err::<usize, RyndError>(RyndError::IncompatibleType),
            old(self).live(h as int) && (!(BinOp::Gt == BinOp::Div || BinOp::Gt
                == BinOp::Modulo) || (old(self).handle_tp(h as int) != NDArrayType::Bool
                && binop_scalar_defined(
                BinOp::Gt,
                old(self).handle_elems(h as int),
                Value::Float(v),
                reverse,
            ))) ==> r is Ok,
            r is Ok ==> {
                let h2 = r.unwrap() as int;
                &&& final(self).is_owned(h2)
                &&& final(self).handle_tp(h2) == binop_result_type(
                    BinOp::Gt,
                    old(self).handle_tp(h as int),
                    vtype(Value::Float(v)),
                )
                &&& final(self).handle_shape(h2) == old(self).handle_shape(h as int)
                &&& final(self).handle_elems(h2) =~= binop_scalar_seq(
                    BinOp::Gt,
                    old(self).handle_elems(h as int),
                    Value::Float(v),
                    reverse,
                )
                &&& final(self).slots@.len() == old(self).slots@.len() + 1
                &&& final(self).entry(r.unwrap() as int).views@.len() == 0
                &&& forall|h3: int|
                    0 <= h3 < old(self).slots@.len() ==> final(self).slots@[h3] == old(
                        self,
                    ).slots@[h3]
            },
    {
        self.binop_scalar(BinOp::Gt, h, Value::Float(v), reverse)
    }

    /// Elementwise `leq` against one scalar (machine integer); `reverse`
    /// puts the scalar on the left.
    pub fn leq_scalar_i64(&mut self, h: usize, v: i64, reverse: bool) -> (r: Result<
        usize,
        RyndError,
    >)
        requires
            old(self).wf(),
            old(self).slots@.len() < usize::MAX,
        ensures
            final(self).wf(),
            r is Err ==> final(self).slots@ == old(self).slots@,
            !old(self).live(h as int) ==> r == Err::<usize, RyndError>(RyndError::DeletedHandle),
            old(self).live(h as int) && (BinOp::Leq == BinOp::Div || BinOp::Leq
                == BinOp::Modulo) && old(self).handle_tp(h as int) == NDArrayType::Bool ==> r
                == Err::<usize, RyndError>(RyndError::IncompatibleType),
            old(self).live(h as int) && (!(BinOp::Leq == BinOp::Div || BinOp::Leq
                == BinOp::Modulo) || (old(self).handle_tp(h as int) != NDArrayType::Bool
                && binop_scalar_defined(
                BinOp::Leq,
                old(self).handle_elems(h as int),
                Value::Int(v),
                reverse,
            ))) ==> r is Ok,
            r is Ok ==> {
                let h2 = r.unwrap() as int;
                &&& final(self).is_owned(h2)
                &&& final(self).handle_tp(h2) == binop_result_type(
                    BinOp::Leq,
                    old(self).handle_tp(h as int),
                    vtype(Value::Int(v)),
                )
                &&& final(self).handle_shape(h2) == old(self).handle_shape(h as int)
                &&& final(self).handle_elems(h2) =~= binop_scalar_seq(
                    BinOp::Leq,
                    old(self).handle_elems(h as int),
                    Value::Int(v),
                    reverse,
                )
                &&& final(self).slots@.len() == old(self).slots@.len() + 1
                &&& final(self).entry(r.unwrap() as int).views@.len() == 0
                &&& forall|h3: int|
                    0 <= h3 < old(self).slots@.len() ==> final(self).slots@[h3] == old(
                        self,
                    ).slots@[h3]
            },
    {
        self.binop_scalar(BinOp::Leq, h, Value::Int(v), reverse)
    }

    /// Elementwise `leq` against one scalar (bits of a double); `reverse`
    /// puts the scalar on the left.
    pub fn leq_scalar_f64(&mut self, h: usize, v: u64, reverse: bool) -> (r: Result<
        usize,
        RyndError,
    >)
        requires
            old(self).wf(),
            old(self).slots@.len() < usize::MAX,
        ensures
            final(self).wf(),
            r is Err ==> final(self).slots@ == old(self).slots@,
            !old(self).live(h as int) ==> r == Err::<usize, RyndError>(RyndError::DeletedHandle),
            old(self).live(h as int) && (BinOp::Leq == BinOp::Div || BinOp::Leq
                == BinOp::Modulo) && old(self).handle_tp(h as int) == NDArrayType::Bool ==> r
                == Err::<usize, RyndError>(RyndError::IncompatibleType),
            old(self).live(h as int) && (!(BinOp::Leq == BinOp::Div || BinOp::Leq
                == BinOp::Modulo) || (old(self).handle_tp(h as int) != NDArrayType::Bool
                && binop_scalar_defined(
                BinOp::Leq,
                old(self).handle_elems(h as int),
                Value::Float(v),
                reverse,
            ))) ==> r is Ok,
            r is Ok ==> {
                let h2 = r.unwrap() as int;
                &&& final(self).is_owned(h2)
                &&& final(self).handle_tp(h2) == binop_result_type(
                    BinOp::Leq,
                    old(self).handle_tp(h as int),
                    vtype(Value::Float(v)),
                )
                &&& final(self).handle_shape(h2) == old(self).handle_shape(h as int)
                &&& final(self).handle_elems(h2) =~= binop_scalar_seq(
                    BinOp::Leq,
                    old(self).handle_elems(h as int),
                    Value::Float(v),
                    reverse,
                )
                &&& final(self).slots@.len() == old(self).slots@.len() + 1
                &&& final(self).entry(r.unwrap() as int).views@.len() == 0
                &&& forall|h3: int|
                    0 <= h3 < old(self).slots@.len() ==> final(self).slots@[h3] == old(
                        self,
                    ).slots@[h3]
            },
    {
        self.binop_scalar(BinOp::Leq, h, Value::Float(v), reverse)
    }

    /// Elementwise `geq` against one scalar (machine integer); `reverse`
    /// puts the scalar on the left.
    pub fn geq_scalar_i64(&mut self, h: usize, v: i64, reverse: bool) -> (r: Result<
        usize,
        RyndError,
    >)
        requires
            old(self).wf(),
            old(self).slots@.len() < usize::MAX,
        ensures
            final(self).wf(),
            r is Err ==> final(self).slots@ == old(self).slots@,
            !old(self).live(h as int) ==> r == Err::<usize, RyndError>(RyndError::DeletedHandle),
            old(self).live(h as int) && (BinOp::Geq == BinOp::Div || BinOp::Geq
                == BinOp::Modulo) && old(self).handle_tp(h as int) == NDArrayType::Bool ==> r
                == Err::<usize, RyndError>(RyndError::IncompatibleType),
            old(self).live(h as int) && (!(BinOp::Geq == BinOp::Div || BinOp::Geq
                == BinOp::Modulo) || (old(self).handle_tp(h as int) != NDArrayType::Bool
                && binop_scalar_defined(
                BinOp::Geq,
                old(self).handle_elems(h as int),
                Value::Int(v),
                reverse,
            ))) ==> r is Ok,
            r is Ok ==> {
                let h2 = r.unwrap() as int;
                &&& final(self).is_owned(h2)
                &&& final(self).handle_tp(h2) == binop_result_type(
                    BinOp::Geq,
                    old(self).handle_tp(h as int),
                    vtype(Value::Int(v)),
                )
                &&& final(self).handle_shape(h2) == old(self).handle_shape(h as int)
                &&& final(self).handle_elems(h2) =~= binop_scalar_seq(
                    BinOp::Geq,
                    old(self).handle_elems(h as int),
                    Value::Int(v),
                    reverse,
                )
                &&& final(self).slots@.len() == old(self).slots@.len() + 1
                &&& final(self).entry(r.unwrap() as int).views@.len() == 0
                &&& forall|h3: int|
                    0 <= h3 < old(self).slots@.len() ==> final(self).slots@[h3] == old(
                        self,
                    ).slots@[h3]
            },
    {
        self.binop_scalar(BinOp::Geq, h, Value::Int(v), reverse)
    }

    /// Elementwise `geq` against one scalar (bits of a double); `reverse`
    /// puts the scalar on the left.
    pub fn geq_scalar_f64(&mut self, h: usize, v: u64, reverse: bool) -> (r: Result<
        usize,
        RyndError,
    >)
        requires
            old(self).wf(),
            old(self).slots@.len() < usize::MAX,
        ensures
            final(self).wf(),
            r is Err ==> final(self).slots@ == old(self).slots@,
            !old(self).live(h as int) ==> r == Err::<usize, RyndError>(RyndError::DeletedHandle),
            old(self).live(h as int) && (BinOp::Geq == BinOp::Div || BinOp::Geq
                == BinOp::Modulo) && old(self).handle_tp(h as int) == NDArrayType::Bool ==> r
                == Err::<usize, RyndError>(RyndError::IncompatibleType),
            old(self).live(h as int) && (!(BinOp::Geq == BinOp::Div || BinOp::Geq
                == BinOp::Modulo) || (old(self).handle_tp(h as int) != NDArrayType::Bool
                && binop_scalar_defined(
                BinOp::Geq,
                old(self).handle_elems(h as int),
                Value::Float(v),
                reverse,
            ))) ==> r is Ok,
            r is Ok ==> {
                let h2 = r.unwrap() as int;
                &&& final(self).is_owned(h2)
                &&& final(self).handle_tp(h2) == binop_result_type(
                    BinOp::Geq,
                    old(self).handle_tp(h as int),
                    vtype(Value::Float(v)),
                )
                &&& final(self).handle_shape(h2) == old(self).handle_shape(h as int)
                &&& final(self).handle_elems(h2) =~= binop_scalar_seq(
                    BinOp::Geq,
                    old(self).handle_elems(h as int),
                    Value::Float(v),
                    reverse,
                )
                &&& final(self).slots@.len() == old(self).slots@.len() + 1
                &&& final(self).entry(r.unwrap() as int).views@.len() == 0
                &&& forall|h3: int|
                    0 <= h3 < old(self).slots@.len() ==> final(self).slots@[h3] == old(
                        self,
                    ).slots@[h3]
            },
    {
        self.binop_scalar(BinOp::Geq, h, Value::Float(v), reverse)
    }

    /// The `axis_sum` operation along one (possibly negative) axis.
    pub fn axis_sum(&mut self, h: usize, dim: i64) -> (r: Result<usize, RyndError>)
        requires
            old(self).wf(),
            old(self).slots@.len() < usize::MAX,
        ensures
            final(self).wf(),
            r is Err ==> final(self).slots@ == old(self).slots@,
            !old(self).live(h as int) ==> r == Err::<usize, RyndError>(RyndError::DeletedHandle),
            old(self).live(h as int) && !(0 <= norm_dim(
                old(self).handle_shape(h as int).len() as int,
                dim as int,
            ) < old(self).handle_shape(h as int).len()) ==> r == Err::<usize, RyndError>(
                RyndError::InvalidIndex,
            ),
            old(self).live(h as int) && MemoryManager::axis_op_accepts(
                old(self).handle_elems(h as int),
                old(self).handle_shape(h as int),
                old(self).handle_tp(h as int),
                dim as int,
                crate::algorithms::AxisOp::Sum,
            ) ==> r is Ok,
            r is Ok ==> {
                &&& final(self).slots@.len() == old(self).slots@.len() + 1
                &&& final(self).entry(r.unwrap() as int).views@.len() == 0
                &&& forall|h3: int|
                    0 <= h3 < old(self).slots@.len() ==> final(self).slots@[h3] == old(
                        self,
                    ).slots@[h3]
            },
            r is Ok ==> {
                let h2 = r.unwrap() as int;
                let ax = norm_dim(old(self).handle_shape(h as int).len() as int, dim as int);
                &&& final(self).is_owned(h2)
                &&& final(self).handle_shape(h2) =~= crate::algorithms::axis_out_shape(
                    old(self).handle_shape(h as int),
                    ax,
                    crate::algorithms::AxisOp::Sum,
                )
                &&& crate::algorithms::axis_semantics(
                    old(self).handle_elems(h as int),
                    old(self).handle_shape(h as int),
                    old(self).handle_tp(h as int),
                    ax,
                    crate::algorithms::AxisOp::Sum,
                    final(self).handle_elems(h2),
                )
            },
    {
        self.axis_op(h, dim, crate::algorithms::AxisOp::Sum)
    }

    /// The `axis_mean` operation along one (possibly negative) axis.
    pub fn axis_mean(&mut self, h: usize, dim: i64) -> (r: Result<usize, RyndError>)
        requires
            old(self).wf(),
            old(self).slots@.len() < usize::MAX,
        ensures
            final(self).wf(),
            r is Err ==> final(self).slots@ == old(self).slots@,
            !old(self).live(h as int) ==> r == Err::<usize, RyndError>(RyndError::DeletedHandle),
            old(self).live(h as int) && !(0 <= norm_dim(
                old(self).handle_shape(h as int).len() as int,
                dim as int,
            ) < old(self).handle_shape(h as int).len()) ==> r == Err::<usize, RyndError>(
                RyndError::InvalidIndex,
            ),
            old(self).live(h as int) && MemoryManager::axis_op_accepts(
                old(self).handle_elems(h as int),
                old(self).handle_shape(h as int),
                old(self).handle_tp(h as int),
                dim as int,
                crate::algorithms::AxisOp::Mean,
            ) ==> r is Ok,
            r is Ok ==> {
                &&& final(self).slots@.len() == old(self).slots@.len() + 1
                &&& final(self).entry(r.unwrap() as int).views@.len() == 0
                &&& forall|h3: int|
                    0 <= h3 < old(self).slots@.len() ==> final(self).slots@[h3] == old(
                        self,
                    ).slots@[h3]
            },
            r is Ok ==> {
                let h2 = r.unwrap() as int;
                let ax = norm_dim(old(self).handle_shape(h as int).len() as int, dim as int);
                &&& final(self).is_owned(h2)
                &&& final(self).handle_shape(h2) =~= crate::algorithms::axis_out_shape(
                    old(self).handle_shape(h as int),
                    ax,
                    crate::algorithms::AxisOp::Mean,
                )
                &&& crate::algorithms::axis_semantics(
                    old(self).handle_elems(h as int),
                    old(self).handle_shape(h as int),
                    old(self).handle_tp(h as int),
                    ax,
                    crate::algorithms::AxisOp::Mean,
                    final(self).handle_elems(h2),
                )
            },
    {
        self.axis_op(h, dim, crate::algorithms::AxisOp::Mean)
    }

    /// The `axis_var` operation along one (possibly negative) axis.
    pub fn axis_var(&mut self, h: usize, dim: i64) -> (r: Result<usize, RyndError>)
        requires
            old(self).wf(),
            old(self).slots@.len() < usize::MAX,
        ensures
            final(self).wf(),
            r is Err ==> final(self).slots@ == old(self).slots@,
            !old(self).live(h as int) ==> r == Err::<usize, RyndError>(RyndError::DeletedHandle),
            old(self).live(h as int) && !(0 <= norm_dim(
                old(self).handle_shape(h as int).len() as int,
                dim as int,
            ) < old(self).handle_shape(h as int).len()) ==> r == Err::<usize, RyndError>(
                RyndError::InvalidIndex,
            ),
            old(self).live(h as int) && MemoryManager::axis_op_accepts(
                old(self).handle_elems(h as int),
                old(self).handle_shape(h as int),
                old(self).handle_tp(h as int),
                dim as int,
                crate::algorithms::AxisOp::Var,
            ) ==> r is Ok,
            r is Ok ==> {
                &&& final(self).slots@.len() == old(self).slots@.len() + 1
                &&& final(self).entry(r.unwrap() as int).views@.len() == 0
                &&& forall|h3: int|
                    0 <= h3 < old(self).slots@.len() ==> final(self).slots@[h3] == old(
                        self,
                    ).slots@[h3]
            },
            r is Ok ==> {
                let h2 = r.unwrap() as int;
                let ax = norm_dim(old(self).handle_shape(h as int).len() as int, dim as int);
                &&& final(self).is_owned(h2)
                &&& final(self).handle_shape(h2) =~= crate::algorithms::axis_out_shape(
                    old(self).handle_shape(h as int),
                    ax,
                    crate::algorithms::AxisOp::Var,
                )
                &&& crate::algorithms::axis_semantics(
                    old(self).handle_elems(h as int),
                    old(self).handle_shape(h as int),
                    old(self).handle_tp(h as int),
                    ax,
                    crate::algorithms::AxisOp::Var,
                    final(self).handle_elems(h2),
                )
            },
    {
        self.axis_op(h, dim, crate::algorithms::AxisOp::Var)
    }

    /// The `axis_min` operation along one (possibly negative) axis.
    pub fn axis_min(&mut self, h: usize, dim: i64) -> (r: Result<usize, RyndError>)
        requires
            old(self).wf(),
            old(self).slots@.len() < usize::MAX,
        ensures
            final(self).wf(),
            r is Err ==> final(self).slots@ == old(self).slots@,
            !old(self).live(h as int) ==> r == Err::<usize, RyndError>(RyndError::DeletedHandle),
            old(self).live(h as int) && !(0 <= norm_dim(
                old(self).handle_shape(h as int).len() as int,
                dim as int,
            ) < old(self).handle_shape(h as int).len()) ==> r == Err::<usize, RyndError>(
                RyndError::InvalidIndex,
            ),
            old(self).live(h as int) && MemoryManager::axis_op_accepts(
                old(self).handle_elems(h as int),
                old(self).handle_shape(h as int),
                old(self).handle_tp(h as int),
                dim as int,
                crate::algorithms::AxisOp::Min,
            ) ==> r is Ok,
            r is Ok ==> {
                &&& final(self).slots@.len() == old(self).slots@.len() + 1
                &&& final(self).entry(r.unwrap() as int).views@.len() == 0
                &&& forall|h3: int|
                    0 <= h3 < old(self).slots@.len() ==> final(self).slots@[h3] == old(
                        self,
                    ).slots@[h3]
            },
            r is Ok ==> {
                let h2 = r.unwrap() as int;
                let ax = norm_dim(old(self).handle_shape(h as int).len() as int, dim as int);
                &&& final(self).is_owned(h2)
                &&& final(self).handle_shape(h2) =~= crate::algorithms::axis_out_shape(
                    old(self).handle_shape(h as int),
                    ax,
                    crate::algorithms::AxisOp::Min,
                )
                &&& crate::algorithms::axis_semantics(
                    old(self).handle_elems(h as int),
                    old(self).handle_shape(h as int),
                    old(self).handle_tp(h as int),
                    ax,
                    crate::algorithms::AxisOp::Min,
                    final(self).handle_elems(h2),
                )
            },
    {
        self.axis_op(h, dim, crate::algorithms::AxisOp::Min)
    }

    /// The `axis_max` operation along one (possibly negative) axis.
    pub fn axis_max(&mut self, h: usize, dim: i64) -> (r: Result<usize, RyndError>)
        requires
            old(self).wf(),
            old(self).slots@.len() < usize::MAX,
        ensures
            final(self).wf(),
            r is Err ==> final(self).slots@ == old(self).slots@,
            !old(self).live(h as int) ==> r == Err::<usize, RyndError>(RyndError::DeletedHandle),
            old(self).live(h as int) && !(0 <= norm_dim(
                old(self).handle_shape(h as int).len() as int,
                dim as int,
            ) < old(self).handle_shape(h as int).len()) ==> r == Err::<usize, RyndError>(
                RyndError::InvalidIndex,
            ),
            old(self).live(h as int) && MemoryManager::axis_op_accepts(
                old(self).handle_elems(h as int),
                old(self).handle_shape(h as int),
                old(self).handle_tp(h as int),
                dim as int,
                crate::algorithms::AxisOp::Max,
            ) ==> r is Ok,
            r is Ok ==> {
                &&& final(self).slots@.len() == old(self).slots@.len() + 1
                &&& final(self).entry(r.unwrap() as int).views@.len() == 0
                &&& forall|h3: int|
                    0 <= h3 < old(self).slots@.len() ==> final(self).slots@[h3] == old(
                        self,
                    ).slots@[h3]
            },
            r is Ok ==> {
                let h2 = r.unwrap() as int;
                let ax = norm_dim(old(self).handle_shape(h as int).len() as int, dim as int);
                &&& final(self).is_owned(h2)
                &&& final(self).handle_shape(h2) =~= crate::algorithms::axis_out_shape(
                    old(self).handle_shape(h as int),
                    ax,
                    crate::algorithms::AxisOp::Max,
                )
                &&& crate::algorithms::axis_semantics(
                    old(self).handle_elems(h as int),
                    old(self).handle_shape(h as int),
                    old(self).handle_tp(h as int),
                    ax,
                    crate::algorithms::AxisOp::Max,
                    final(self).handle_elems(h2),
                )
            },
    {
        self.axis_op(h, dim, crate::algorithms::AxisOp::Max)
    }

    /// The `axis_argmin` operation along one (possibly negative) axis.
    pub fn axis_argmin(&mut self, h: usize, dim: i64) -> (r: Result<usize, RyndError>)
        requires
            old(self).wf(),
            old(self).slots@.len() < usize::MAX,
        ensures
            final(self).wf(),
            r is Err ==> final(self).slots@ == old(self).slots@,
            !old(self).live(h as int) ==> r == Err::<usize, RyndError>(RyndError::DeletedHandle),
            old(self).live(h as int) && !(0 <= norm_dim(
                old(self).handle_shape(h as int).len() as int,
                dim as int,
            ) < old(self).handle_shape(h as int).len()) ==> r == Err::<usize, RyndError>(
                RyndError::InvalidIndex,
            ),
            old(self).live(h as int) && MemoryManager::axis_op_accepts(
                old(self).handle_elems(h as int),
                old(self).handle_shape(h as int),
                old(self).handle_tp(h as int),
                dim as int,
                crate::algorithms::AxisOp::Argmin,
            ) ==> r is Ok,
            r is Ok ==> {
                &&& final(self).slots@.len() == old(self).slots@.len() + 1
                &&& final(self).entry(r.unwrap() as int).views@.len() == 0
                &&& forall|h3: int|
                    0 <= h3 < old(self).slots@.len() ==> final(self).slots@[h3] == old(
                        self,
                    ).slots@[h3]
            },
            r is Ok ==> {
                let h2 = r.unwrap() as int;
                let ax = norm_dim(old(self).handle_shape(h as int).len() as int, dim as int);
                &&& final(self).is_owned(h2)
                &&& final(self).handle_shape(h2) =~= crate::algorithms::axis_out_shape(
                    old(self).handle_shape(h as int),
                    ax,
                    crate::algorithms::AxisOp::Argmin,
                )
                &&& crate::algorithms::axis_semantics(
                    old(self).handle_elems(h as int),
                    old(self).handle_shape(h as int),
                    old(self).handle_tp(h as int),
                    ax,
                    crate::algorithms::AxisOp::Argmin,
                    final(self).handle_elems(h2),
                )
            },
    {
        self.axis_op(h, dim, crate::algorithms::AxisOp::Argmin)
    }

    /// The `axis_argmax` operation along one (possibly negative) axis.
    pub fn axis_argmax(&mut self, h: usize, dim: i64) -> (r: Result<usize, RyndError>)
        requires
            old(self).wf(),
            old(self).slots@.len() < usize::MAX,
        ensures
            final(self).wf(),
            r is Err ==> final(self).slots@ == old(self).slots@,
            !old(self).live(h as int) ==> r == Err::<usize, RyndError>(RyndError::DeletedHandle),
            old(self).live(h as int) && !(0 <= norm_dim(
                old(self).handle_shape(h as int).len() as int,
                dim as int,
            ) < old(self).handle_shape(h as int).len()) ==> r == Err::<usize, RyndError>(
                RyndError::InvalidIndex,
            ),
            old(self).live(h as int) && MemoryManager::axis_op_accepts(
                old(self).handle_elems(h as int),
                old(self).handle_shape(h as int),
                old(self).handle_tp(h as int),
                dim as int,
                crate::algorithms::AxisOp::Argmax,
            ) ==> r is Ok,
            r is Ok ==> {
                &&& final(self).slots@.len() == old(self).slots@.len() + 1
                &&& final(self).entry(r.unwrap() as int).views@.len() == 0
                &&& forall|h3: int|
                    0 <= h3 < old(self).slots@.len() ==> final(self).slots@[h3] == old(
                        self,
                    ).slots@[h3]
            },
            r is Ok ==> {
                let h2 = r.unwrap() as int;
                let ax = norm_dim(old(self).handle_shape(h as int).len() as int, dim as int);
                &&& final(self).is_owned(h2)
                &&& final(self).handle_shape(h2) =~= crate::algorithms::axis_out_shape(
                    old(self).handle_shape(h as int),
                    ax,
                    crate::algorithms::AxisOp::Argmax,
                )
                &&& crate::algorithms::axis_semantics(
                    old(self).handle_elems(h as int),
                    old(self).handle_shape(h as int),
                    old(self).handle_tp(h as int),
                    ax,
                    crate::algorithms::AxisOp::Argmax,
                    final(self).handle_elems(h2),
                )
            },
    {
        self.axis_op(h, dim, crate::algorithms::AxisOp::Argmax)
    }

    /// The `axis_argsort` operation along one (possibly negative) axis.
    pub fn axis_argsort(&mut self, h: usize, dim: i64) -> (r: Result<usize, RyndError>)
        requires
            old(self).wf(),
            old(self).slots@.len() < usize::MAX,
        ensures
            final(self).wf(),
            r is Err ==> final(self).slots@ == old(self).slots@,
            !old(self).live(h as int) ==> r == Err::<usize, RyndError>(RyndError::DeletedHandle),
            old(self).live(h as int) && !(0 <= norm_dim(
                old(self).handle_shape(h as int).len() as int,
                dim as int,
            ) < old(self).handle_shape(h as int).len()) ==> r == Err::<usize, RyndError>(
                RyndError::InvalidIndex,
            ),
            old(self).live(h as int) && MemoryManager::axis_op_accepts(
                old(self).handle_elems(h as int),
                old(self).handle_shape(h as int),
                old(self).handle_tp(h as int),
                dim as int,
                crate::algorithms::AxisOp::Argsort,
            ) ==> r is Ok,
            r is Ok ==> {
                &&& final(self).slots@.len() == old(self).slots@.len() + 1
                &&& final(self).entry(r.unwrap() as int).views@.len() == 0
                &&& forall|h3: int|
                    0 <= h3 < old(self).slots@.len() ==> final(self).slots@[h3] == old(
                        self,
                    ).slots@[h3]
            },
            r is Ok ==> {
                let h2 = r.unwrap() as int;
                let ax = norm_dim(old(self).handle_shape(h as int).len() as int, dim as int);
                &&& final(self).is_owned(h2)
                &&& final(self).handle_shape(h2) =~= crate::algorithms::axis_out_shape(
                    old(self).handle_shape(h as int),
                    ax,
                    crate::algorithms::AxisOp::Argsort,
                )
                &&& crate::algorithms::axis_semantics(
                    old(self).handle_elems(h as int),
                    old(self).handle_shape(h as int),
                    old(self).handle_tp(h as int),
                    ax,
                    crate::algorithms::AxisOp::Argsort,
                    final(self).handle_elems(h2),
                )
            },
    {
        self.axis_op(h, dim, crate::algorithms::AxisOp::Argsort)
    }

    /// The `axis_cumsum` operation along one (possibly negative) axis.
    pub fn axis_cumsum(&mut self, h: usize, dim: i64) -> (r: Result<usize, RyndError>)
        requires
            old(self).wf(),
            old(self).slots@.len() < usize::MAX,
        ensures
            final(self).wf(),
            r is Err ==> final(self).slots@ == old(self).slots@,
            !old(self).live(h as int) ==> r == Err::<usize, RyndError>(RyndError::DeletedHandle),
            old(self).live(h as int) && !(0 <= norm_dim(
                old(self).handle_shape(h as int).len() as int,
                dim as int,
            ) < old(self).handle_shape(h as int).len()) ==> r == Err::<usize, RyndError>(
                RyndError::InvalidIndex,
            ),
            old(self).live(h as int) && MemoryManager::axis_op_accepts(
                old(self).handle_elems(h as int),
                old(self).handle_shape(h as int),
                old(self).handle_tp(h as int),
                dim as int,
                crate::algorithms::AxisOp::Cumsum,
            ) ==> r is Ok,
            r is Ok ==> {
                &&& final(self).slots@.len() == old(self).slots@.len() + 1
                &&& final(self).entry(r.unwrap() as int).views@.len() == 0
                &&& forall|h3: int|
                    0 <= h3 < old(self).slots@.len() ==> final(self).slots@[h3] == old(
                        self,
                    ).slots@[h3]
            },
            r is Ok ==> {
                let h2 = r.unwrap() as int;
                let ax = norm_dim(old(self).handle_shape(h as int).len() as int, dim as int);
                &&& final(self).is_owned(h2)
                &&& final(self).handle_shape(h2) =~= crate::algorithms::axis_out_shape(
                    old(self).handle_shape(h as int),
                    ax,
                    crate::algorithms::AxisOp::Cumsum,
                )
                &&& crate::algorithms::axis_semantics(
                    old(self).handle_elems(h as int),
                    old(self).handle_shape(h as int),
                    old(self).handle_tp(h as int),
                    ax,
                    crate::algorithms::AxisOp::Cumsum,
                    final(self).handle_elems(h2),
                )
            },
    {
        self.axis_op(h, dim, crate::algorithms::AxisOp::Cumsum)
    }

    /// The `axis_diff` operation along one (possibly negative) axis.
    pub fn axis_diff(&mut self, h: usize, dim: i64) -> (r: Result<usize, RyndError>)
        requires
            old(self).wf(),
            old(self).slots@.len() < usize::MAX,
        ensures
            final(self).wf(),
            r is Err ==> final(self).slots@ == old(self).slots@,
            !old(self).live(h as int) ==> r == Err::<usize, RyndError>(RyndError::DeletedHandle),
            old(self).live(h as int) && !(0 <= norm_dim(
                old(self).handle_shape(h as int).len() as int,
                dim as int,
            ) < old(self).handle_shape(h as int).len()) ==> r == Err::<usize, RyndError>(
                RyndError::InvalidIndex,
            ),
            old(self).live(h as int) && MemoryManager::axis_op_accepts(
                old(self).handle_elems(h as int),
                old(self).handle_shape(h as int),
                old(self).handle_tp(h as int),
                dim as int,
                crate::algorithms::AxisOp::Diff,
            ) ==> r is Ok,
            r is Ok ==> {
                &&& final(self).slots@.len() == old(self).slots@.len() + 1
                &&& final(self).entry(r.unwrap() as int).views@.len() == 0
                &&& forall|h3: int|
                    0 <= h3 < old(self).slots@.len() ==> final(self).slots@[h3] == old(
                        self,
                    ).slots@[h3]
            },
            r is Ok ==> {
                let h2 = r.unwrap() as int;
                let ax = norm_dim(old(self).handle_shape(h as int).len() as int, dim as int);
                &&& final(self).is_owned(h2)
                &&& final(self).handle_shape(h2) =~= crate::algorithms::axis_out_shape(
                    old(self).handle_shape(h as int),
                    ax,
                    crate::algorithms::AxisOp::Diff,
                )
                &&& crate::algorithms::axis_semantics(
                    old(self).handle_elems(h as int),
                    old(self).handle_shape(h as int),
                    old(self).handle_tp(h as int),
                    ax,
                    crate::algorithms::AxisOp::Diff,
                    final(self).handle_elems(h2),
                )
            },
    {
        self.axis_op(h, dim, crate::algorithms::AxisOp::Diff)
    }
}


// The per-element rounding maps: floating-point elements round by the named
// IEEE operations, integer and boolean elements are already integral and
// pass through unchanged.
#[derive(Clone, Copy, PartialEq, Eq, Structural, Debug)]
pub enum RoundMode {
    Floor,
    Ceil,
    Round,
}

/// What one rounding map makes of one element.
pub open spec fn round_spec(mode: RoundMode, v: Value) -> Value {
    match v {
        Value::Float(b) => Value::Float(
            match mode {
                RoundMode::Floor => crate::floatbits::ffloor_bits(b),
                RoundMode::Ceil => crate::floatbits::fceil_bits(b),
                RoundMode::Round => crate::floatbits::fround_bits(b),
            },
        ),
        _ => v,
    }
}

/// One element clamped between two same-typed bounds: below `lo` becomes
/// `lo`, above `hi` becomes `hi`, all else (NaN included) stays.
pub open spec fn clip_spec(x: Value, lo: Value, hi: Value) -> Value {
    if crate::value::value_lt(x, lo) {
        lo
    } else if crate::value::value_lt(hi, x) {
        hi
    } else {
        x
    }
}

impl MemoryManager {
    /// One rounding map applied elementwise; a fresh Owned result.
    pub fn rounding(&mut self, h: usize, mode: RoundMode) -> (r: Result<usize, RyndError>)
        requires
            old(self).wf(),
            old(self).slots@.len() < usize::MAX,
        ensures
            final(self).wf(),
            r is Err ==> final(self).slots@ == old(self).slots@,
            !old(self).live(h as int) ==> r == Err::<usize, RyndError>(RyndError::DeletedHandle),
            old(self).live(h as int) ==> r is Ok && {
                let h2 = r.unwrap() as int;
                &&& final(self).is_owned(h2)
                &&& final(self).handle_tp(h2) == old(self).handle_tp(h as int)
                &&& final(self).handle_shape(h2) == old(self).handle_shape(h as int)
                &&& final(self).handle_elems(h2) =~= old(self).handle_elems(h as int).map_values(
                    |v: Value| round_spec(mode, v),
                )
                &&& final(self).slots@.len() == old(self).slots@.len() + 1
                &&& final(self).entry(r.unwrap() as int).views@.len() == 0
                &&& forall|h3: int|
                    0 <= h3 < old(self).slots@.len() ==> final(self).slots@[h3] == old(
                        self,
                    ).slots@[h3]
            },
    {
        let a = match self.handle_data(h) {
            Ok(a) => a,
            Err(e) => {
                return Err(e);
            },
        };
        let tp = a.tp_exec();
        let n = a.data.len();
        let mut out = Buffer::empty(tp);
        let mut i: usize = 0;
        while i < n
            invariant
                0 <= i <= n,
                a.wf(),
                a.tp() == tp,
                n == a.elems().len(),
                out.elem_type() == tp,
                out.vals().len() == i,
                forall|k: int|
                    0 <= k < i ==> out.vals()[k] == round_spec(mode, #[trigger] a.elems()[k]),
            decreases n - i,
        {
            proof {
                crate::algorithms::lemma_buffer_typed(&a.data);
            }
            let v = a.data.get(i);
            let w = match v {
                Value::Float(b) => Value::Float(
                    match mode {
                        RoundMode::Floor => crate::floatbits::float_floor(b),
                        RoundMode::Ceil => crate::floatbits::float_ceil(b),
                        RoundMode::Round => crate::floatbits::float_round(b),
                    },
                ),
                other => other,
            };
            out.push(w);
            i += 1;
        }
        let shape = clone_vec_usize(&a.shape);
        let arr = NDArrayOwned { shape, data: out };
        let h2 = self.register_and_leak(arr);
        proof {
            assert(self.handle_elems(h2 as int) =~= old(self).handle_elems(h as int).map_values(
                |v: Value| round_spec(mode, v),
            ));
        }
        Ok(h2)
    }

    /// Elements rounded toward negative infinity; Int and Bool arrays are
    /// unchanged copies.
    pub fn floor(&mut self, h: usize) -> (r: Result<usize, RyndError>)
        requires
            old(self).wf(),
            old(self).slots@.len() < usize::MAX,
        ensures
            final(self).wf(),
            r is Err ==> final(self).slots@ == old(self).slots@,
            !old(self).live(h as int) ==> r == Err::<usize, RyndError>(RyndError::DeletedHandle),
            old(self).live(h as int) ==> r is Ok && final(self).handle_elems(
                r.unwrap() as int,
            ) =~= old(self).handle_elems(h as int).map_values(
                |v: Value| round_spec(RoundMode::Floor, v),
            ),
    {
        self.rounding(h, RoundMode::Floor)
    }

    /// Elements rounded toward positive infinity; Int and Bool arrays are
    /// unchanged copies.
    pub fn ceil(&mut self, h: usize) -> (r: Result<usize, RyndError>)
        requires
            old(self).wf(),
            old(self).slots@.len() < usize::MAX,
        ensures
            final(self).wf(),
            r is Err ==> final(self).slots@ == old(self).slots@,
            !old(self).live(h as int) ==> r == Err::<usize, RyndError>(RyndError::DeletedHandle),
            old(self).live(h as int) ==> r is Ok && final(self).handle_elems(
                r.unwrap() as int,
            ) =~= old(self).handle_elems(h as int).map_values(
                |v: Value| round_spec(RoundMode::Ceil, v),
            ),
    {
        self.rounding(h, RoundMode::Ceil)
    }

    /// Elements rounded to the nearest integer, ties away from zero; Int and
    /// Bool arrays are unchanged copies.
    pub fn round(&mut self, h: usize) -> (r: Result<usize, RyndError>)
        requires
            old(self).wf(),
            old(self).slots@.len() < usize::MAX,
        ensures
            final(self).wf(),
            r is Err ==> final(self).slots@ == old(self).slots@,
            !old(self).live(h as int) ==> r == Err::<usize, RyndError>(RyndError::DeletedHandle),
            old(self).live(h as int) ==> r is Ok && final(self).handle_elems(
                r.unwrap() as int,
            ) =~= old(self).handle_elems(h as int).map_values(
                |v: Value| round_spec(RoundMode::Round, v),
            ),
    {
        self.rounding(h, RoundMode::Round)
    }

    /// Elements clamped between two floating-point bounds, which convert to
    /// the array's own type first; boolean arrays are refused.
    pub fn clip(&mut self, h: usize, low_bits: u64, high_bits: u64) -> (r: Result<
        usize,
        RyndError,
    >)
        requires
            old(self).wf(),
            old(self).slots@.len() < usize::MAX,
        ensures
            final(self).wf(),
            r is Err ==> final(self).slots@ == old(self).slots@,
            !old(self).live(h as int) ==> r == Err::<usize, RyndError>(RyndError::DeletedHandle),
            old(self).live(h as int) && old(self).handle_tp(h as int) == NDArrayType::Bool ==> r
                == Err::<usize, RyndError>(RyndError::UnsupportedOperation),
            old(self).live(h as int) && old(self).handle_tp(h as int) != NDArrayType::Bool ==> r
                is Ok && {
                let h2 = r.unwrap() as int;
                let tp = old(self).handle_tp(h as int);
                let lo = cast_spec(Value::Float(low_bits), tp);
                let hi = cast_spec(Value::Float(high_bits), tp);
                &&& final(self).is_owned(h2)
                &&& final(self).handle_tp(h2) == tp
                &&& final(self).handle_shape(h2) == old(self).handle_shape(h as int)
                &&& final(self).handle_elems(h2) =~= old(self).handle_elems(h as int).map_values(
                    |v: Value| clip_spec(v, lo, hi),
                )
                &&& final(self).slots@.len() == old(self).slots@.len() + 1
                &&& final(self).entry(r.unwrap() as int).views@.len() == 0
                &&& forall|h3: int|
                    0 <= h3 < old(self).slots@.len() ==> final(self).slots@[h3] == old(
                        self,
                    ).slots@[h3]
            },
    {
        let a = match self.handle_data(h) {
            Ok(a) => a,
            Err(e) => {
                return Err(e);
            },
        };
        let tp = a.tp_exec();
        if tp == NDArrayType::Bool {
            return Err(RyndError::UnsupportedOperation);
        }
        let lo = cast_value(&Value::Float(low_bits), tp);
        let hi = cast_value(&Value::Float(high_bits), tp);
        let n = a.data.len();
        let mut out = Buffer::empty(tp);
        let mut i: usize = 0;
        while i < n
            invariant
                0 <= i <= n,
                a.wf(),
                a.tp() == tp,
                tp != NDArrayType::Bool,
                n == a.elems().len(),
                lo == cast_spec(Value::Float(low_bits), tp),
                hi == cast_spec(Value::Float(high_bits), tp),
                vtype(lo) == tp,
                vtype(hi) == tp,
                out.elem_type() == tp,
                out.vals().len() == i,
                forall|k: int|
                    0 <= k < i ==> out.vals()[k] == clip_spec(#[trigger] a.elems()[k], lo, hi),
            decreases n - i,
        {
            proof {
                crate::algorithms::lemma_buffer_typed(&a.data);
            }
            let x = a.data.get(i);
            let w = if crate::value::value_lt_exec(&x, &lo) {
                lo
            } else if crate::value::value_lt_exec(&hi, &x) {
                hi
            } else {
                x
            };
            out.push(w);
            i += 1;
        }
        let shape = clone_vec_usize(&a.shape);
        let arr = NDArrayOwned { shape, data: out };
        let h2 = self.register_and_leak(arr);
        proof {
            let lo2 = cast_spec(Value::Float(low_bits), old(self).handle_tp(h as int));
            let hi2 = cast_spec(Value::Float(high_bits), old(self).handle_tp(h as int));
            assert(self.handle_elems(h2 as int) =~= old(self).handle_elems(h as int).map_values(
                |v: Value| clip_spec(v, lo2, hi2),
            ));
        }
        Ok(h2)
    }

    /// Writes the scalar, converted to `dst`'s type, into `dst` only where
    /// the Bool mask is true; the shapes must match.
    pub fn assign_scalar_mask(&mut self, dst: usize, scalar: Value, mask: usize) -> (r: Result<
        (),
        RyndError,
    >)
        requires
            old(self).wf(),
        ensures
            final(self).wf(),
            r is Err ==> final(self).slots@ == old(self).slots@,
            !(old(self).live(dst as int) && old(self).live(mask as int)) ==> r == Err::<
                (),
                RyndError,
            >(RyndError::DeletedHandle),
            old(self).live(dst as int) && old(self).live(mask as int) && !(old(self).handle_shape(
                dst as int,
            ) =~= old(self).handle_shape(mask as int)) ==> r == Err::<(), RyndError>(
                RyndError::IncompatibleShape,
            ),
            old(self).live(dst as int) && old(self).live(mask as int) && old(self).handle_shape(
                dst as int,
            ) =~= old(self).handle_shape(mask as int) && old(self).handle_tp(mask as int)
                != NDArrayType::Bool ==> r == Err::<(), RyndError>(RyndError::InvalidIndex),
            old(self).live(dst as int) && old(self).live(mask as int) && old(self).handle_shape(
                dst as int,
            ) =~= old(self).handle_shape(mask as int) && old(self).handle_tp(mask as int)
                == NDArrayType::Bool ==> r is Ok && MemoryManager::write_frame(
                *old(self),
                *final(self),
                dst as int,
            ) && final(self).handle_elems(dst as int) =~= Seq::new(
                old(self).handle_elems(dst as int).len(),
                |i: int|
                    if old(self).handle_elems(mask as int)[i] == Value::Bool(true) {
                        cast_spec(scalar, old(self).handle_tp(dst as int))
                    } else {
                        old(self).handle_elems(dst as int)[i]
                    },
            ),
    {
        let d = match self.handle_data(dst) {
            Ok(a) => a,
            Err(e) => {
                return Err(e);
            },
        };
        let m = match self.handle_data(mask) {
            Ok(a) => a,
            Err(e) => {
                return Err(e);
            },
        };
        if !shapes_equal(&d.shape, &m.shape) {
            return Err(RyndError::IncompatibleShape);
        }
        if m.tp_exec() != NDArrayType::Bool {
            return Err(RyndError::InvalidIndex);
        }
        let tp = d.tp_exec();
        let sv = cast_value(&scalar, tp);
        let n = d.len();
        let mut vals: Vec<Value> = Vec::new();
        let mut i: usize = 0;
        while i < n
            invariant
                0 <= i <= n,
                d.wf(),
                m.wf(),
                n == d.elems().len(),
                n == m.elems().len(),
                tp == d.tp(),
                sv == cast_spec(scalar, tp),
                vals@.len() == i,
                forall|k: int|
                    0 <= k < i ==> vals@[k] == (if m.elems()[k] == Value::Bool(true) {
                        cast_spec(scalar, tp)
                    } else {
                        d.elems()[k]
                    }),
            decreases n - i,
        {
            let keep = m.data.get(i);
            let w = if keep == Value::Bool(true) {
                sv
            } else {
                d.data.get(i)
            };
            vals.push(w);
            i += 1;
        }
        proof {
            crate::algorithms::lemma_buffer_typed(&d.data);
        }
        match self.write_handle(dst, &vals) {
            Ok(()) => Ok(()),
            Err(e) => Err(e),
        }
    }

    /// Masked scalar assignment of a machine integer.
    pub fn assign_scalar_i64_mask(&mut self, dst: usize, v: i64, mask: usize) -> (r: Result<
        (),
        RyndError,
    >)
        requires
            old(self).wf(),
        ensures
            final(self).wf(),
            r is Err ==> final(self).slots@ == old(self).slots@,
            old(self).live(dst as int) && old(self).live(mask as int) && old(self).handle_shape(
                dst as int,
            ) =~= old(self).handle_shape(mask as int) && old(self).handle_tp(mask as int)
                == NDArrayType::Bool ==> r is Ok && final(self).handle_elems(dst as int)
                =~= Seq::new(
                old(self).handle_elems(dst as int).len(),
                |i: int|
                    if old(self).handle_elems(mask as int)[i] == Value::Bool(true) {
                        cast_spec(Value::Int(v), old(self).handle_tp(dst as int))
                    } else {
                        old(self).handle_elems(dst as int)[i]
                    },
            ),
    {
        self.assign_scalar_mask(dst, Value::Int(v), mask)
    }

    /// Masked scalar assignment of binary64 bits.
    pub fn assign_scalar_f64_mask(&mut self, dst: usize, bits: u64, mask: usize) -> (r: Result<
        (),
        RyndError,
    >)
        requires
            old(self).wf(),
        ensures
            final(self).wf(),
            r is Err ==> final(self).slots@ == old(self).slots@,
            old(self).live(dst as int) && old(self).live(mask as int) && old(self).handle_shape(
                dst as int,
            ) =~= old(self).handle_shape(mask as int) && old(self).handle_tp(mask as int)
                == NDArrayType::Bool ==> r is Ok && final(self).handle_elems(dst as int)
                =~= Seq::new(
                old(self).handle_elems(dst as int).len(),
                |i: int|
                    if old(self).handle_elems(mask as int)[i] == Value::Bool(true) {
                        cast_spec(Value::Float(bits), old(self).handle_tp(dst as int))
                    } else {
                        old(self).handle_elems(dst as int)[i]
                    },
            ),
    {
        self.assign_scalar_mask(dst, Value::Float(bits), mask)
    }

    /// A handle's element type.
    pub fn type_of(&self, h: usize) -> (r: Result<NDArrayType, RyndError>)
        requires
            self.wf(),
        ensures
            !self.live(h as int) ==> r == Err::<NDArrayType, RyndError>(RyndError::DeletedHandle),
            self.live(h as int) ==> r == Ok::<NDArrayType, RyndError>(self.handle_tp(h as int)),
    {
        match self.handle_data(h) {
            Ok(a) => Ok(a.tp_exec()),
            Err(e) => Err(e),
        }
    }
}


/// Every element a live handle denotes carries the handle's element type.
pub proof fn lemma_handle_elems_typed(m: &MemoryManager, h: int)
    requires
        m.wf(),
        m.live(h),
    ensures
        forall|i: int|
            0 <= i < m.handle_elems(h).len() ==> vtype(#[trigger] m.handle_elems(h)[i])
                == m.handle_tp(h),
{
    let root = m.root_of(h);
    assert(m.is_owned(root)) by {
        if m.is_view(h) {
            assert(m.is_view(h));
        }
    }
    crate::algorithms::lemma_buffer_typed(&m.owned_of(root).data);
    if m.is_view(h) {
        let desc = m.view_of(h).desc;
        let buf = m.owned_of(root).elems();
        crate::shape::lemma_sufprod_nonneg(desc.shape@, 0);
        assert(m.handle_elems(h).len() == desc.numel());
        assert forall|i: int|
            0 <= i < m.handle_elems(h).len() implies vtype(#[trigger] m.handle_elems(h)[i])
            == m.handle_tp(h) by {
            crate::view::lemma_addr_in_bounds(&desc, buf.len() as int, i);
            assert(m.handle_elems(h)[i] == buf[desc.addr(i)]);
        }
    }
}

} // verus!
