use rynd::algorithms::AxisOp;
use rynd::error::RyndError;
use rynd::memory::MemoryManager;
use rynd::value::{BinOp, Value};
use rynd::NDArrayType;

fn mgr() -> MemoryManager {
    MemoryManager::new()
}

fn int_array(m: &mut MemoryManager, shape: Vec<usize>, data: Vec<i64>) -> usize {
    m.array_from_i64(shape, data).unwrap()
}

fn float_array(m: &mut MemoryManager, shape: Vec<usize>, data: Vec<f64>) -> usize {
    let bits: Vec<u64> = data.into_iter().map(|x| x.to_bits()).collect();
    m.array_from_f64_bits(shape, bits).unwrap()
}

fn get_all_i64(m: &MemoryManager, h: usize) -> Vec<i64> {
    let n = m.len_of(h).unwrap();
    (0..n).map(|i| m.get_i64(h, i).unwrap()).collect()
}

fn get_all_f64(m: &MemoryManager, h: usize) -> Vec<f64> {
    let n = m.len_of(h).unwrap();
    (0..n).map(|i| f64::from_bits(m.get_f64(h, i).unwrap())).collect()
}

#[test]
fn create_zeroed_array() {
    let mut m = mgr();
    let h = m.create_array(NDArrayType::Int, vec![2, 3]).unwrap();
    assert_eq!(m.len_of(h).unwrap(), 6);
    assert_eq!(m.shape_of(h).unwrap(), vec![2, 3]);
    assert_eq!(get_all_i64(&m, h), vec![0, 0, 0, 0, 0, 0]);
}

#[test]
fn iota_and_linspace() {
    let mut m = mgr();
    let h = m.iota(5).unwrap();
    assert_eq!(get_all_i64(&m, h), vec![0, 1, 2, 3, 4]);
    let l = m.linspace(1, 10, 3).unwrap();
    assert_eq!(get_all_i64(&m, l), vec![1, 4, 7]);
    let e = m.linspace(5, 5, 2).unwrap();
    assert_eq!(m.len_of(e).unwrap(), 0);
}

// Creating a 2x3 Int array of zeros, assigning the scalar 5, casting to
// Float and adding a same-shape array of ones yields all 6.0.
#[test]
fn scalar_assign_cast_add_scenario() {
    let mut m = mgr();
    let h = m.create_array(NDArrayType::Int, vec![2, 3]).unwrap();
    m.assign_scalar_i64(h, 5).unwrap();
    assert_eq!(get_all_i64(&m, h), vec![5; 6]);
    let f = m.cast(h, NDArrayType::Float).unwrap();
    let ones = float_array(&mut m, vec![2, 3], vec![1.0; 6]);
    let r = m.sum(f, ones).unwrap();
    assert_eq!(m.shape_of(r).unwrap(), vec![2, 3]);
    assert_eq!(get_all_f64(&m, r), vec![6.0; 6]);
}

// Slicing a 10-element Int array with start 2, end 8, step 2 yields the
// aliasing view [2, 4, 6]; writing through the view writes the original.
#[test]
fn slice_view_aliases_original() {
    let mut m = mgr();
    let h = m.iota(10).unwrap();
    let v = m.slice(h, &vec![2], &vec![8], &vec![2]).unwrap();
    assert_eq!(get_all_i64(&m, v), vec![2, 4, 6]);
    // a one-element window on the view is element 2 of the original
    let first = m.slice(v, &vec![0], &vec![1], &vec![1]).unwrap();
    m.assign_scalar_i64(first, 42).unwrap();
    assert_eq!(m.get_i64(h, 2).unwrap(), 42);
    assert_eq!(get_all_i64(&m, v), vec![42, 4, 6]);
}

#[test]
fn slice_negative_bounds_wrap() {
    let mut m = mgr();
    let h = m.iota(10).unwrap();
    let v = m.slice(h, &vec![-3], &vec![10], &vec![1]).unwrap();
    assert_eq!(get_all_i64(&m, v), vec![8, 9]);
}

#[test]
fn slice_step_zero_is_index_error() {
    let mut m = mgr();
    let h = m.iota(10).unwrap();
    assert_eq!(
        m.slice(h, &vec![0], &vec![5], &vec![0]).unwrap_err(),
        RyndError::InvalidIndex
    );
}

#[test]
fn slice_negative_step_walks_backward() {
    let mut m = mgr();
    let h = m.iota(10).unwrap();
    let v = m.slice(h, &vec![2], &vec![8], &vec![-2]).unwrap();
    // the backward walk starts at the end of the range
    assert_eq!(get_all_i64(&m, v), vec![7, 5, 3]);
}

// Boolean-masking [1,0,3,0,5] with [true,false,true,false,true] gives
// [1,3,5].
#[test]
fn boolean_mask_compacts() {
    let mut m = mgr();
    let a = int_array(&mut m, vec![5], vec![1, 0, 3, 0, 5]);
    let mask = m
        .array_from_bool(vec![5], vec![true, false, true, false, true])
        .unwrap();
    let r = m.index(a, mask).unwrap();
    assert_eq!(m.shape_of(r).unwrap(), vec![3]);
    assert_eq!(get_all_i64(&m, r), vec![1, 3, 5]);
}

#[test]
fn integer_index_gathers_rows_with_wraparound() {
    let mut m = mgr();
    let a = m.iota(5).unwrap();
    let idx = int_array(&mut m, vec![2], vec![3, -1]);
    let r = m.index(a, idx).unwrap();
    assert_eq!(get_all_i64(&m, r), vec![3, 4]);
}

#[test]
fn float_index_is_invalid() {
    let mut m = mgr();
    let a = m.iota(5).unwrap();
    let idx = float_array(&mut m, vec![1], vec![1.0]);
    assert_eq!(m.index(a, idx).unwrap_err(), RyndError::InvalidIndex);
}

// Matmul of a 2x3 Int and a 3x2 Float array: a 2x2 Float standard product.
#[test]
fn matmul_int_by_float() {
    let mut m = mgr();
    let a = int_array(&mut m, vec![2, 3], vec![1, 2, 3, 4, 5, 6]);
    let b = float_array(&mut m, vec![3, 2], vec![0.5, 1.0, 1.5, 2.0, 2.5, 3.0]);
    let r = m.matmul(a, b).unwrap();
    assert_eq!(m.shape_of(r).unwrap(), vec![2, 2]);
    // [[1*0.5+2*1.5+3*2.5, 1*1+2*2+3*3], [4*0.5+5*1.5+6*2.5, 4*1+5*2+6*3]]
    assert_eq!(get_all_f64(&m, r), vec![11.0, 14.0, 24.5, 32.0]);
}

#[test]
fn matmul_shape_mismatch() {
    let mut m = mgr();
    let a = int_array(&mut m, vec![2, 3], vec![0; 6]);
    let b = int_array(&mut m, vec![2, 2], vec![0; 4]);
    assert_eq!(m.matmul(a, b).unwrap_err(), RyndError::IncompatibleShape);
    let c = m.iota(4).unwrap();
    assert_eq!(m.matmul(a, c).unwrap_err(), RyndError::IncompatibleShape);
}

// Reshaping twice, back to the original shape, keeps the elements and stays
// a view of the same storage: mutation through either handle shows through
// the other.
#[test]
fn reshape_round_trip_aliases() {
    let mut m = mgr();
    let h = m.iota(6).unwrap();
    let v1 = m.reshape(h, vec![2, 3]).unwrap();
    let v2 = m.reshape(v1, vec![6]).unwrap();
    assert_eq!(get_all_i64(&m, v2), vec![0, 1, 2, 3, 4, 5]);
    let first = m.slice(v2, &vec![0], &vec![1], &vec![1]).unwrap();
    m.assign_scalar_i64(first, 9).unwrap();
    assert_eq!(m.get_i64(h, 0).unwrap(), 9);
    assert_eq!(m.get_i64(v1, 0).unwrap(), 9);
}

#[test]
fn reshape_wrong_count_is_shape_error() {
    let mut m = mgr();
    let h = m.iota(6).unwrap();
    assert_eq!(
        m.reshape(h, vec![4, 2]).unwrap_err(),
        RyndError::IncompatibleShape
    );
}

#[test]
fn permute_reorders_axes() {
    let mut m = mgr();
    let h = m.iota(6).unwrap();
    let v = m.reshape(h, vec![2, 3]).unwrap();
    let p = m.permute(v, &vec![1, 0]).unwrap();
    assert_eq!(m.shape_of(p).unwrap(), vec![3, 2]);
    // the transpose of [[0,1,2],[3,4,5]] read row-major
    assert_eq!(get_all_i64(&m, p), vec![0, 3, 1, 4, 2, 5]);
}

#[test]
fn permute_invalid_permutation() {
    let mut m = mgr();
    let h = m.iota(6).unwrap();
    let v = m.reshape(h, vec![2, 3]).unwrap();
    assert_eq!(
        m.permute(v, &vec![0, 0]).unwrap_err(),
        RyndError::InvalidPermutation
    );
    assert_eq!(
        m.permute(v, &vec![0, 2]).unwrap_err(),
        RyndError::InvalidPermutation
    );
}

#[test]
fn axis_reverse_iterates_backward() {
    let mut m = mgr();
    let h = m.iota(5).unwrap();
    let v = m.axis_reverse(h, 0).unwrap();
    assert_eq!(get_all_i64(&m, v), vec![4, 3, 2, 1, 0]);
}

// Releasing the Owned handle while views are registered must not free the
// storage; releasing everything, in either order, frees it exactly once.
#[test]
fn release_any_order_is_safe() {
    let mut m = mgr();
    let a = m.iota(6).unwrap();
    let v1 = m.reshape(a, vec![2, 3]).unwrap();
    let v2 = m.reshape(a, vec![3, 2]).unwrap();
    // the owned handle goes first; its storage must survive for the views
    m.free_array_ptr(a).unwrap();
    assert_eq!(get_all_i64(&m, v1), vec![0, 1, 2, 3, 4, 5]);
    m.free_array_ptr(v1).unwrap();
    assert_eq!(get_all_i64(&m, v2), vec![0, 1, 2, 3, 4, 5]);
    m.free_array_ptr(v2).unwrap();
    // now every handle is gone
    assert_eq!(m.get_i64(a, 0).unwrap_err(), RyndError::DeletedHandle);
    assert_eq!(m.get_i64(v2, 0).unwrap_err(), RyndError::DeletedHandle);

    // the other order: views first, owner last
    let b = m.iota(4).unwrap();
    let w1 = m.reshape(b, vec![2, 2]).unwrap();
    let w2 = m.reshape(b, vec![4]).unwrap();
    m.free_array_ptr(w1).unwrap();
    m.free_array_ptr(w2).unwrap();
    assert_eq!(m.get_i64(b, 3).unwrap(), 3);
    m.free_array_ptr(b).unwrap();
    assert_eq!(m.get_i64(b, 0).unwrap_err(), RyndError::DeletedHandle);
}

// Freeing the same handle twice must not free twice: the second release of
// an absent handle reports DeletedHandle and changes nothing.
#[test]
fn double_free_is_reported() {
    let mut m = mgr();
    let a = m.iota(3).unwrap();
    let b = m.iota(2).unwrap();
    m.free_array_ptr(a).unwrap();
    assert_eq!(m.free_array_ptr(a).unwrap_err(), RyndError::DeletedHandle);
    // an unrelated live handle is untouched by the failed free
    assert_eq!(get_all_i64(&m, b), vec![0, 1]);
}

#[test]
fn refcounts_keep_handles_alive() {
    let mut m = mgr();
    let a = m.iota(3).unwrap();
    m.register_ref(a).unwrap();
    assert_eq!(m.get_refcount(a), Some(2));
    m.free_array_ptr(a).unwrap();
    assert_eq!(m.get_refcount(a), Some(1));
    assert_eq!(m.get_i64(a, 1).unwrap(), 1);
    m.free_array_ptr(a).unwrap();
    assert_eq!(m.get_refcount(a), None);
}

// The promotion table: Int with Float gives Float; Int with Bool gives Int;
// two Bools under + and - are XOR and under * are AND.
#[test]
fn promotion_table_cases() {
    let mut m = mgr();
    let i = int_array(&mut m, vec![2], vec![3, -2]);
    let f = float_array(&mut m, vec![2], vec![0.5, 1.25]);
    let bt = m.array_from_bool(vec![2], vec![true, false]).unwrap();
    let bu = m.array_from_bool(vec![2], vec![true, true]).unwrap();

    let r1 = m.sum(i, f).unwrap();
    assert_eq!(get_all_f64(&m, r1), vec![3.5, -0.75]);

    let r2 = m.sum(i, bt).unwrap();
    assert_eq!(get_all_i64(&m, r2), vec![4, -2]);

    // Bool + Bool is XOR
    let r3 = m.sum(bt, bu).unwrap();
    assert_eq!(
        (m.get_bool(r3, 0).unwrap(), m.get_bool(r3, 1).unwrap()),
        (false, true)
    );
    // Bool - Bool is XOR too
    let r4 = m.sub(bt, bu).unwrap();
    assert_eq!(
        (m.get_bool(r4, 0).unwrap(), m.get_bool(r4, 1).unwrap()),
        (false, true)
    );
    // Bool * Bool is AND
    let r5 = m.mul(bt, bu).unwrap();
    assert_eq!(
        (m.get_bool(r5, 0).unwrap(), m.get_bool(r5, 1).unwrap()),
        (true, false)
    );
}

#[test]
fn boolean_division_is_type_error() {
    let mut m = mgr();
    let a = m.array_from_bool(vec![2], vec![true, false]).unwrap();
    let b = m.array_from_bool(vec![2], vec![true, true]).unwrap();
    assert_eq!(m.div(a, b).unwrap_err(), RyndError::IncompatibleType);
    assert_eq!(m.modulo(a, b).unwrap_err(), RyndError::IncompatibleType);
    assert_eq!(
        m.binop_scalar(BinOp::Div, a, Value::Int(2), false).unwrap_err(),
        RyndError::IncompatibleType
    );
}

#[test]
fn integer_division_faults_are_reported() {
    let mut m = mgr();
    let a = int_array(&mut m, vec![2], vec![4, 9]);
    let z = int_array(&mut m, vec![2], vec![2, 0]);
    assert_eq!(m.div(a, z).unwrap_err(), RyndError::UnsupportedOperation);
    assert_eq!(
        m.binop_scalar(BinOp::Div, a, Value::Int(0), false).unwrap_err(),
        RyndError::UnsupportedOperation
    );
    let ok = m.binop_scalar(BinOp::Div, a, Value::Int(2), false).unwrap();
    assert_eq!(get_all_i64(&m, ok), vec![2, 4]);
    // the reverse flag puts the scalar on the left
    let rev = m
        .binop_scalar(BinOp::Sub, a, Value::Int(10), true)
        .unwrap();
    assert_eq!(get_all_i64(&m, rev), vec![6, 1]);
}

#[test]
fn float_division_is_total() {
    let mut m = mgr();
    let a = float_array(&mut m, vec![2], vec![1.0, -1.0]);
    let z = float_array(&mut m, vec![2], vec![0.0, 0.0]);
    let r = m.div(a, z).unwrap();
    let out = get_all_f64(&m, r);
    assert_eq!(out[0], f64::INFINITY);
    assert_eq!(out[1], f64::NEG_INFINITY);
}

#[test]
fn comparisons_give_bool_arrays() {
    let mut m = mgr();
    let a = int_array(&mut m, vec![3], vec![1, 5, 3]);
    let b = int_array(&mut m, vec![3], vec![2, 5, 1]);
    let lt = m.lt(a, b).unwrap();
    assert_eq!(
        (0..3).map(|i| m.get_bool(lt, i).unwrap()).collect::<Vec<_>>(),
        vec![true, false, false]
    );
    let eqr = m.eq(a, b).unwrap();
    assert_eq!(
        (0..3).map(|i| m.get_bool(eqr, i).unwrap()).collect::<Vec<_>>(),
        vec![false, true, false]
    );
}

#[test]
fn cast_between_all_types() {
    let mut m = mgr();
    let f = float_array(&mut m, vec![3], vec![2.9, -1.5, 0.0]);
    let i = m.cast(f, NDArrayType::Int).unwrap();
    assert_eq!(get_all_i64(&m, i), vec![2, -1, 0]);
    let b = m.cast(f, NDArrayType::Bool).unwrap();
    assert_eq!(
        (0..3).map(|k| m.get_bool(b, k).unwrap()).collect::<Vec<_>>(),
        vec![true, true, false]
    );
    let back = m.cast(b, NDArrayType::Float).unwrap();
    assert_eq!(get_all_f64(&m, back), vec![1.0, 1.0, 0.0]);
}

#[test]
fn axis_sum_and_mean() {
    let mut m = mgr();
    let h = int_array(&mut m, vec![2, 3], vec![1, 2, 3, 4, 5, 6]);
    let s0 = m.axis_op(h, 0, AxisOp::Sum).unwrap();
    assert_eq!(m.shape_of(s0).unwrap(), vec![3]);
    assert_eq!(get_all_i64(&m, s0), vec![5, 7, 9]);
    let s1 = m.axis_op(h, 1, AxisOp::Sum).unwrap();
    assert_eq!(get_all_i64(&m, s1), vec![6, 15]);
    // a negative axis counts from the back
    let s1b = m.axis_op(h, -1, AxisOp::Sum).unwrap();
    assert_eq!(get_all_i64(&m, s1b), vec![6, 15]);
    let mean = m.axis_op(h, 1, AxisOp::Mean).unwrap();
    assert_eq!(get_all_i64(&m, mean), vec![2, 5]);
}

#[test]
fn axis_min_max_and_arg() {
    let mut m = mgr();
    let h = int_array(&mut m, vec![2, 3], vec![4, 1, 2, 2, 9, 9]);
    let mn = m.axis_op(h, 1, AxisOp::Min).unwrap();
    assert_eq!(get_all_i64(&m, mn), vec![1, 2]);
    let mx = m.axis_op(h, 1, AxisOp::Max).unwrap();
    assert_eq!(get_all_i64(&m, mx), vec![4, 9]);
    // argmin returns the earliest of equals, argmax the latest
    let ami = m.axis_op(h, 1, AxisOp::Argmin).unwrap();
    assert_eq!(get_all_i64(&m, ami), vec![1, 0]);
    let ama = m.axis_op(h, 1, AxisOp::Argmax).unwrap();
    assert_eq!(get_all_i64(&m, ama), vec![0, 2]);
}

#[test]
fn axis_ops_on_empty_axis_are_errors() {
    let mut m = mgr();
    let h = m.create_array(NDArrayType::Int, vec![0]).unwrap();
    assert_eq!(
        m.axis_op(h, 0, AxisOp::Mean).unwrap_err(),
        RyndError::UnsupportedOperation
    );
    assert_eq!(
        m.axis_op(h, 0, AxisOp::Min).unwrap_err(),
        RyndError::UnsupportedOperation
    );
}

#[test]
fn axis_sort_and_argsort_agree() {
    let mut m = mgr();
    let h = int_array(&mut m, vec![5], vec![3, 1, 4, 1, 5]);
    let idx = m.axis_op(h, 0, AxisOp::Argsort).unwrap();
    assert_eq!(get_all_i64(&m, idx), vec![1, 3, 0, 2, 4]);
    // gathering the original with the argsort indices is the sort
    let gathered = m.index(h, idx).unwrap();
    let sorted = m.axis_op(h, 0, AxisOp::Sort).unwrap();
    assert_eq!(get_all_i64(&m, gathered), get_all_i64(&m, sorted));
    assert_eq!(get_all_i64(&m, sorted), vec![1, 1, 3, 4, 5]);
    // sorting in place writes through the handle
    m.axis_sort(h, 0).unwrap();
    assert_eq!(get_all_i64(&m, h), vec![1, 1, 3, 4, 5]);
}

#[test]
fn sort_floats_rejects_nan() {
    let mut m = mgr();
    let h = float_array(&mut m, vec![3], vec![2.0, f64::NAN, 1.0]);
    assert_eq!(
        m.axis_op(h, 0, AxisOp::Sort).unwrap_err(),
        RyndError::UnsupportedOperation
    );
    let ok = float_array(&mut m, vec![3], vec![2.0, 3.0, 1.0]);
    let s = m.axis_op(ok, 0, AxisOp::Sort).unwrap();
    assert_eq!(get_all_f64(&m, s), vec![1.0, 2.0, 3.0]);
}

// cumsum then diff along the same axis recovers the original but for the
// first element.
#[test]
fn cumsum_then_diff_recovers_tail() {
    let mut m = mgr();
    let h = int_array(&mut m, vec![4], vec![7, -2, 5, 11]);
    let c = m.axis_op(h, 0, AxisOp::Cumsum).unwrap();
    assert_eq!(get_all_i64(&m, c), vec![7, 5, 10, 21]);
    let d = m.axis_op(c, 0, AxisOp::Diff).unwrap();
    assert_eq!(get_all_i64(&m, d), vec![-2, 5, 11]);
}

#[test]
fn axis_var_population() {
    let mut m = mgr();
    let h = int_array(&mut m, vec![3], vec![1, 2, 3]);
    let v = m.axis_op(h, 0, AxisOp::Var).unwrap();
    let expected = ((1.0f64 - 2.0).powi(2) + 0.0 + (3.0f64 - 2.0).powi(2)) / 3.0;
    assert_eq!(get_all_f64(&m, v), vec![expected]);
}

#[test]
fn stack_and_concat() {
    let mut m = mgr();
    let a = int_array(&mut m, vec![2], vec![1, 2]);
    let b = int_array(&mut m, vec![2], vec![3, 4]);
    let st = m.stack(a, b, 0).unwrap();
    assert_eq!(m.shape_of(st).unwrap(), vec![2, 2]);
    assert_eq!(get_all_i64(&m, st), vec![1, 2, 3, 4]);
    let st1 = m.stack(a, b, 1).unwrap();
    assert_eq!(m.shape_of(st1).unwrap(), vec![2, 2]);
    assert_eq!(get_all_i64(&m, st1), vec![1, 3, 2, 4]);
    let c = int_array(&mut m, vec![1], vec![9]);
    let cc = m.concat(a, c, 0).unwrap();
    assert_eq!(m.shape_of(cc).unwrap(), vec![3]);
    assert_eq!(get_all_i64(&m, cc), vec![1, 2, 9]);
}

#[test]
fn mixed_type_stack_and_concat_are_type_errors() {
    let mut m = mgr();
    let a = int_array(&mut m, vec![2], vec![1, 2]);
    let f = float_array(&mut m, vec![2], vec![1.0, 2.0]);
    assert_eq!(m.stack(a, f, 0).unwrap_err(), RyndError::IncompatibleType);
    assert_eq!(m.concat(a, f, 0).unwrap_err(), RyndError::IncompatibleType);
}

#[test]
fn concat_mismatched_other_axes() {
    let mut m = mgr();
    let a = int_array(&mut m, vec![2, 2], vec![1, 2, 3, 4]);
    let b = int_array(&mut m, vec![2, 3], vec![0; 6]);
    assert_eq!(m.concat(a, b, 0).unwrap_err(), RyndError::IncompatibleShape);
}

#[test]
fn nonzero_lists_coordinates() {
    let mut m = mgr();
    let a = int_array(&mut m, vec![2, 2], vec![1, 0, 0, 5]);
    let nz = m.nonzero(a).unwrap();
    assert_eq!(m.shape_of(nz).unwrap(), vec![2, 2]);
    assert_eq!(get_all_i64(&m, nz), vec![0, 0, 1, 1]);
    // NaN counts as nonzero, like any value other than zero
    let f = float_array(&mut m, vec![3], vec![0.0, f64::NAN, -0.0]);
    let nzf = m.nonzero(f).unwrap();
    assert_eq!(m.shape_of(nzf).unwrap(), vec![1, 1]);
    assert_eq!(get_all_i64(&m, nzf), vec![1]);
}

#[test]
fn assign_converts_and_assign_mask_selects() {
    let mut m = mgr();
    let dst = m.create_array(NDArrayType::Int, vec![3]).unwrap();
    let src = float_array(&mut m, vec![3], vec![1.9, -2.5, 3.0]);
    m.assign(dst, src).unwrap();
    assert_eq!(get_all_i64(&m, dst), vec![1, -2, 3]);
    let other = int_array(&mut m, vec![3], vec![7, 8, 9]);
    let mask = m
        .array_from_bool(vec![3], vec![true, false, true])
        .unwrap();
    m.assign_mask(dst, other, mask).unwrap();
    assert_eq!(get_all_i64(&m, dst), vec![7, -2, 9]);
    let bad = int_array(&mut m, vec![2], vec![0, 0]);
    assert_eq!(m.assign(dst, bad).unwrap_err(), RyndError::IncompatibleShape);
}

#[test]
fn copy_is_independent() {
    let mut m = mgr();
    let a = m.iota(3).unwrap();
    let c = m.copy_array(a).unwrap();
    m.assign_scalar_i64(a, 7).unwrap();
    assert_eq!(get_all_i64(&m, c), vec![0, 1, 2]);
    assert_eq!(get_all_i64(&m, a), vec![7, 7, 7]);
}

#[test]
fn float_arithmetic_is_real_ieee() {
    let mut m = mgr();
    let a = float_array(&mut m, vec![2], vec![1.5, 7.5]);
    let b = float_array(&mut m, vec![2], vec![2.25, 2.0]);
    let s = m.sum(a, b).unwrap();
    assert_eq!(get_all_f64(&m, s), vec![3.75, 9.5]);
    let d = m.sub(a, b).unwrap();
    assert_eq!(get_all_f64(&m, d), vec![-0.75, 5.5]);
    let p = m.mul(a, b).unwrap();
    assert_eq!(get_all_f64(&m, p), vec![3.375, 15.0]);
    let q = m.div(a, b).unwrap();
    assert_eq!(get_all_f64(&m, q), vec![1.5 / 2.25, 3.75]);
    let r = m.modulo(a, b).unwrap();
    assert_eq!(get_all_f64(&m, r), vec![1.5 % 2.25, 7.5 % 2.0]);
}

#[test]
fn float_rounding_wrappers() {
    assert_eq!(f64::from_bits(rynd::floatbits::float_floor((3.7f64).to_bits())), 3.0);
    assert_eq!(f64::from_bits(rynd::floatbits::float_ceil((3.2f64).to_bits())), 4.0);
    assert_eq!(f64::from_bits(rynd::floatbits::float_round((2.5f64).to_bits())), 3.0);
    assert_eq!(f64::from_bits(rynd::floatbits::float_round((-2.5f64).to_bits())), -3.0);
    assert_eq!(rynd::floatbits::int_of_float((123.9f64).to_bits()), 123);
    assert_eq!(rynd::floatbits::int_of_float(f64::NAN.to_bits()), 0);
    assert_eq!(f64::from_bits(rynd::floatbits::float_of_int(-7)), -7.0);
}

#[test]
fn float_comparisons_handle_zeroes_and_nan() {
    let z = (0.0f64).to_bits();
    let nz = (-0.0f64).to_bits();
    let one = (1.0f64).to_bits();
    let nan = f64::NAN.to_bits();
    assert!(rynd::floatbits::float_eq(z, nz));
    assert!(!rynd::floatbits::float_lt(nz, z));
    assert!(rynd::floatbits::float_lt(nz, one));
    assert!(!rynd::floatbits::float_eq(nan, nan));
    assert!(!rynd::floatbits::float_lt(nan, one));
    assert!(rynd::floatbits::float_lt((-5.0f64).to_bits(), (-1.0f64).to_bits()));
}

#[test]
fn type_tag_decodes() {
    assert_eq!(NDArrayType::try_from(1), Ok(NDArrayType::Int));
    assert_eq!(NDArrayType::try_from(2), Ok(NDArrayType::Float));
    assert_eq!(NDArrayType::try_from(3), Ok(NDArrayType::Bool));
    assert_eq!(NDArrayType::try_from(0), Err(()));
    assert_eq!(NDArrayType::try_from(4), Err(()));
}

#[test]
fn deleted_handle_everywhere() {
    let mut m = mgr();
    let a = m.iota(3).unwrap();
    let b = m.iota(3).unwrap();
    m.free_array_ptr(a).unwrap();
    assert_eq!(m.sum(a, b).unwrap_err(), RyndError::DeletedHandle);
    assert_eq!(m.cast(a, NDArrayType::Float).unwrap_err(), RyndError::DeletedHandle);
    assert_eq!(m.reshape(a, vec![3]).unwrap_err(), RyndError::DeletedHandle);
    assert_eq!(m.len_of(a).unwrap_err(), RyndError::DeletedHandle);
    assert_eq!(m.assign_scalar_i64(a, 1).unwrap_err(), RyndError::DeletedHandle);
}

#[test]
fn named_scalar_wrappers() {
    let mut m = mgr();
    let a = int_array(&mut m, vec![3], vec![1, 2, 3]);
    let s = m.sum_scalar_i64(a, 10, false).unwrap();
    assert_eq!(get_all_i64(&m, s), vec![11, 12, 13]);
    let d = m.sub_scalar_i64(a, 10, true).unwrap();
    assert_eq!(get_all_i64(&m, d), vec![9, 8, 7]);
    let q = m.div_scalar_i64(a, 2, false).unwrap();
    assert_eq!(get_all_i64(&m, q), vec![0, 1, 1]);
    let f = m.mul_scalar_f64(a, (0.5f64).to_bits(), false).unwrap();
    assert_eq!(get_all_f64(&m, f), vec![0.5, 1.0, 1.5]);
    let c = m.geq_scalar_i64(a, 2, false).unwrap();
    assert_eq!(
        (0..3).map(|i| m.get_bool(c, i).unwrap()).collect::<Vec<_>>(),
        vec![false, true, true]
    );
}

#[test]
fn named_axis_wrappers() {
    let mut m = mgr();
    let h = int_array(&mut m, vec![2, 2], vec![1, 2, 3, 4]);
    let s = m.axis_sum(h, 0).unwrap();
    assert_eq!(get_all_i64(&m, s), vec![4, 6]);
    let c = m.axis_cumsum(h, 1).unwrap();
    assert_eq!(get_all_i64(&m, c), vec![1, 3, 3, 7]);
    let d = m.axis_diff(h, 1).unwrap();
    assert_eq!(m.shape_of(d).unwrap(), vec![2, 1]);
    assert_eq!(get_all_i64(&m, d), vec![1, 1]);
    let am = m.axis_argmax(h, 0).unwrap();
    assert_eq!(get_all_i64(&m, am), vec![1, 1]);
}

#[test]
fn refcount_queries() {
    let mut m = mgr();
    let a = m.iota(2).unwrap();
    assert!(!m.can_remove_array(a));
    m.remove_ref(a).unwrap();
    assert!(m.can_remove_array(a));
    let v = m.reshape(a, vec![2]).unwrap();
    // a view now aliases the storage, so the array may not be removed
    assert!(!m.can_remove_array(a));
    m.remove_ref(v).unwrap();
    assert!(m.can_remove_view(v));
}

#[test]
fn int_overflow_wraps() {
    let mut m = mgr();
    let a = int_array(&mut m, vec![1], vec![i64::MAX]);
    let b = int_array(&mut m, vec![1], vec![1]);
    let s = m.sum(a, b).unwrap();
    assert_eq!(get_all_i64(&m, s), vec![i64::MIN]);
}

#[test]
fn view_of_view_has_one_hop() {
    let mut m = mgr();
    let a = m.iota(8).unwrap();
    let v1 = m.reshape(a, vec![2, 4]).unwrap();
    let v2 = m.slice(v1, &vec![1], &vec![2], &vec![1]).unwrap();
    // dropping the intermediate view must not strand the second one
    m.free_array_ptr(v1).unwrap();
    assert_eq!(get_all_i64(&m, v2), vec![4, 5, 6, 7]);
    m.free_array_ptr(a).unwrap();
    assert_eq!(get_all_i64(&m, v2), vec![4, 5, 6, 7]);
    m.free_array_ptr(v2).unwrap();
    assert_eq!(m.len_of(v2).unwrap_err(), RyndError::DeletedHandle);
}

#[test]
fn float_mean_and_reverse_2d() {
    let mut m = mgr();
    let h = float_array(&mut m, vec![2, 2], vec![1.0, 2.0, 3.0, 4.0]);
    let mean = m.axis_mean(h, 0).unwrap();
    assert_eq!(get_all_f64(&m, mean), vec![2.0, 3.0]);
    let rev = m.axis_reverse(h, 0).unwrap();
    assert_eq!(get_all_f64(&m, rev), vec![3.0, 4.0, 1.0, 2.0]);
}

#[test]
fn integer_index_gathers_2d_rows() {
    let mut m = mgr();
    let a = int_array(&mut m, vec![3, 2], vec![1, 2, 3, 4, 5, 6]);
    let idx = int_array(&mut m, vec![2], vec![2, 0]);
    let r = m.index(a, idx).unwrap();
    assert_eq!(m.shape_of(r).unwrap(), vec![2, 2]);
    assert_eq!(get_all_i64(&m, r), vec![5, 6, 1, 2]);
}

#[test]
fn slice_pads_missing_axes_with_full_range() {
    let mut m = mgr();
    let h = m.iota(6).unwrap();
    let v = m.reshape(h, vec![3, 2]).unwrap();
    // one triple for the first axis; the second keeps its full range
    let s = m.slice(v, &vec![1], &vec![3], &vec![1]).unwrap();
    assert_eq!(m.shape_of(s).unwrap(), vec![2, 2]);
    assert_eq!(get_all_i64(&m, s), vec![2, 3, 4, 5]);
}

#[test]
fn permuted_view_writes_through() {
    let mut m = mgr();
    let h = m.iota(4).unwrap();
    let v = m.reshape(h, vec![2, 2]).unwrap();
    let p = m.permute(v, &vec![1, 0]).unwrap();
    // sorting lanes of the transpose rearranges the original storage
    m.axis_sort(p, 1).unwrap();
    assert_eq!(get_all_i64(&m, p), vec![0, 2, 1, 3]);
    assert_eq!(get_all_i64(&m, h), vec![0, 1, 2, 3]);
    // write through a slice of the transpose: column 0 of the original
    let col = m.slice(p, &vec![0], &vec![1], &vec![1]).unwrap();
    m.assign_scalar_i64(col, -1).unwrap();
    assert_eq!(get_all_i64(&m, h), vec![-1, 1, -1, 3]);
}

#[test]
fn stack_shape_mismatch_is_shape_error() {
    let mut m = mgr();
    let a = int_array(&mut m, vec![2], vec![1, 2]);
    let b = int_array(&mut m, vec![3], vec![1, 2, 3]);
    assert_eq!(m.stack(a, b, 0).unwrap_err(), RyndError::IncompatibleShape);
}

#[test]
fn coordinate_index_gathers_elements() {
    let mut m = mgr();
    let a = int_array(&mut m, vec![2, 3], vec![10, 11, 12, 13, 14, 15]);
    // rows are (row, column) tuples; negative coordinates wrap per axis
    let idx = int_array(&mut m, vec![3, 2], vec![0, 0, 1, 2, -1, -3]);
    let r = m.index(a, idx).unwrap();
    assert_eq!(m.shape_of(r).unwrap(), vec![3]);
    assert_eq!(get_all_i64(&m, r), vec![10, 15, 13]);
}

#[test]
fn coordinate_index_errors() {
    let mut m = mgr();
    let a = int_array(&mut m, vec![2, 3], vec![0; 6]);
    // a row narrower than the rank is refused
    let narrow = int_array(&mut m, vec![2, 1], vec![0, 1]);
    assert_eq!(m.index(a, narrow).unwrap_err(), RyndError::InvalidIndex);
    // an out-of-range coordinate is refused
    let oob = int_array(&mut m, vec![1, 2], vec![0, 3]);
    assert_eq!(m.index(a, oob).unwrap_err(), RyndError::InvalidIndex);
    // a rank-3 index is refused
    let deep = int_array(&mut m, vec![1, 1, 2], vec![0, 0]);
    assert_eq!(m.index(a, deep).unwrap_err(), RyndError::InvalidIndex);
}

#[test]
fn iota_negative_is_empty() {
    let mut m = mgr();
    let h = m.iota(-5).unwrap();
    assert_eq!(m.len_of(h).unwrap(), 0);
    assert_eq!(m.shape_of(h).unwrap(), vec![0]);
}

#[test]
fn rounding_in_core() {
    let mut m = mgr();
    let f = float_array(&mut m, vec![3], vec![1.2, -1.2, 2.5]);
    let fl = m.floor(f).unwrap();
    assert_eq!(get_all_f64(&m, fl), vec![1.0, -2.0, 2.0]);
    let ce = m.ceil(f).unwrap();
    assert_eq!(get_all_f64(&m, ce), vec![2.0, -1.0, 3.0]);
    let ro = m.round(f).unwrap();
    assert_eq!(get_all_f64(&m, ro), vec![1.0, -1.0, 3.0]);
    // integer arrays come back unchanged, as fresh copies
    let a = int_array(&mut m, vec![2], vec![4, -7]);
    let af = m.floor(a).unwrap();
    assert_eq!(get_all_i64(&m, af), vec![4, -7]);
}

#[test]
fn clip_in_core() {
    let mut m = mgr();
    let a = int_array(&mut m, vec![4], vec![-5, 0, 5, 50]);
    let c = m.clip(a, (-1.0f64).to_bits(), (10.0f64).to_bits()).unwrap();
    assert_eq!(get_all_i64(&m, c), vec![-1, 0, 5, 10]);
    let f = float_array(&mut m, vec![3], vec![-2.5, 0.5, f64::NAN]);
    let cf = m.clip(f, (0.0f64).to_bits(), (1.0f64).to_bits()).unwrap();
    let out = get_all_f64(&m, cf);
    assert_eq!(out[0], 0.0);
    assert_eq!(out[1], 0.5);
    assert!(out[2].is_nan());
    let b = m.array_from_bool(vec![1], vec![true]).unwrap();
    assert_eq!(
        m.clip(b, (0.0f64).to_bits(), (1.0f64).to_bits()).unwrap_err(),
        RyndError::UnsupportedOperation
    );
}

#[test]
fn masked_scalar_assignment() {
    let mut m = mgr();
    let a = int_array(&mut m, vec![4], vec![1, 2, 3, 4]);
    let mask = m
        .array_from_bool(vec![4], vec![true, false, false, true])
        .unwrap();
    m.assign_scalar_i64_mask(a, 9, mask).unwrap();
    assert_eq!(get_all_i64(&m, a), vec![9, 2, 3, 9]);
    let f = float_array(&mut m, vec![2], vec![1.0, 2.0]);
    let mf = m.array_from_bool(vec![2], vec![false, true]).unwrap();
    m.assign_scalar_f64_mask(f, (7.5f64).to_bits(), mf).unwrap();
    assert_eq!(get_all_f64(&m, f), vec![1.0, 7.5]);
}

#[test]
fn type_query() {
    let mut m = mgr();
    let a = m.iota(1).unwrap();
    assert_eq!(m.type_of(a).unwrap(), NDArrayType::Int);
    let f = float_array(&mut m, vec![0], vec![]);
    assert_eq!(m.type_of(f).unwrap(), NDArrayType::Float);
    m.free_array_ptr(a).unwrap();
    assert_eq!(m.type_of(a).unwrap_err(), RyndError::DeletedHandle);
}

#[test]
fn reshape_of_strided_view_is_refused() {
    let mut m = mgr();
    let h = m.iota(10).unwrap();
    let v = m.slice(h, &vec![0], &vec![10], &vec![2]).unwrap();
    assert_eq!(get_all_i64(&m, v), vec![0, 2, 4, 6, 8]);
    // a step-2 window is not contiguous, so it cannot be reshaped in place
    assert_eq!(
        m.reshape(v, vec![5, 1]).unwrap_err(),
        RyndError::UnsupportedOperation
    );
    // a reversed axis is not contiguous either
    let r = m.axis_reverse(h, 0).unwrap();
    assert_eq!(
        m.reshape(r, vec![2, 5]).unwrap_err(),
        RyndError::UnsupportedOperation
    );
}

#[test]
fn named_div_wrapper_keeps_binop_errors() {
    let mut m = mgr();
    let bt = m.array_from_bool(vec![2], vec![true, false]).unwrap();
    let bu = m.array_from_bool(vec![2], vec![true, true]).unwrap();
    assert_eq!(m.div(bt, bu).unwrap_err(), RyndError::IncompatibleType);
    let a = int_array(&mut m, vec![2], vec![8, 9]);
    let bad = int_array(&mut m, vec![3], vec![1, 1, 1]);
    assert_eq!(m.div(a, bad).unwrap_err(), RyndError::IncompatibleShape);
    assert_eq!(
        m.div_scalar_i64(a, 0, false).unwrap_err(),
        RyndError::UnsupportedOperation
    );
}
