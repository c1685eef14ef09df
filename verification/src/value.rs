use vstd::prelude::*;
use vstd::arithmetic::div_mod::{
    lemma_div_is_ordered_by_denominator, lemma_div_nonincreasing, lemma_div_pos_is_pos,
    lemma_fundamental_div_mod_converse_div,
};
use crate::NDArrayType;
use crate::error::RyndError;
use crate::floatbits::{
    f64_eq, f64_is_nan, f64_is_zero, f64_le, f64_lt, f64_of_bool, f64_of_i64, fadd_bits, fdiv_bits,
    fmod_bits, fmul_bits, fsub_bits, i64_of_f64, float_add, float_div, float_eq, float_le,
    float_lt, float_mod, float_mul, float_of_int, float_sub, int_of_float, float_is_zero,
    F64_ONE_BITS,
};

verus! {

// A single array element. Every element of one array has the same variant;
// floating-point elements carry their IEEE 754 binary64 bit pattern.
#[derive(Clone, Copy, PartialEq, Eq, Structural, Debug)]
pub enum Value {
    Int(i64),
    Float(u64),
    Bool(bool),
}

pub open spec fn vtype(v: Value) -> NDArrayType {
    match v {
        Value::Int(_) => NDArrayType::Int,
        Value::Float(_) => NDArrayType::Float,
        Value::Bool(_) => NDArrayType::Bool,
    }
}

/// The zero-initialized element of each type.
pub open spec fn zero_value(t: NDArrayType) -> Value {
    match t {
        NDArrayType::Int => Value::Int(0i64),
        NDArrayType::Float => Value::Float(0u64),
        NDArrayType::Bool => Value::Bool(false),
    }
}

/// Result type of a mixed-type numeric operation: Float wins, then Int; two
/// booleans stay boolean.
pub open spec fn promote(a: NDArrayType, b: NDArrayType) -> NDArrayType {
    if a == NDArrayType::Float || b == NDArrayType::Float {
        NDArrayType::Float
    } else if a == NDArrayType::Int || b == NDArrayType::Int {
        NDArrayType::Int
    } else {
        NDArrayType::Bool
    }
}

/// The value read as a machine integer: booleans widen to 0/1, floats
/// truncate toward zero and saturate, as an `as` cast does.
pub open spec fn as_int(v: Value) -> i64 {
    match v {
        Value::Int(i) => i,
        Value::Float(x) => i64_of_f64(x),
        Value::Bool(b) => if b {
            1i64
        } else {
            0i64
        },
    }
}

/// The value read as binary64 bits: integers round to the nearest double,
/// booleans widen to 0.0/1.0.
pub open spec fn as_float_bits(v: Value) -> u64 {
    match v {
        Value::Int(i) => f64_of_i64(i),
        Value::Float(x) => x,
        Value::Bool(b) => f64_of_bool(b),
    }
}

/// The value read as a boolean: zero is false, anything else (NaN included)
/// is true.
pub open spec fn as_bool(v: Value) -> bool {
    match v {
        Value::Int(i) => i != 0,
        Value::Float(x) => !f64_is_zero(x),
        Value::Bool(b) => b,
    }
}

/// Element-wise conversion: the meaning of `cast`.
pub open spec fn cast_spec(v: Value, t: NDArrayType) -> Value {
    match t {
        NDArrayType::Int => Value::Int(as_int(v)),
        NDArrayType::Float => Value::Float(as_float_bits(v)),
        NDArrayType::Bool => Value::Bool(as_bool(v)),
    }
}

pub fn value_type(v: &Value) -> (t: NDArrayType)
    ensures
        t == vtype(*v),
{
    match v {
        Value::Int(_) => NDArrayType::Int,
        Value::Float(_) => NDArrayType::Float,
        Value::Bool(_) => NDArrayType::Bool,
    }
}

pub fn zero_of(t: NDArrayType) -> (v: Value)
    ensures
        v == zero_value(t),
{
    match t {
        NDArrayType::Int => Value::Int(0),
        NDArrayType::Float => Value::Float(0),
        NDArrayType::Bool => Value::Bool(false),
    }
}

pub fn cast_value(v: &Value, t: NDArrayType) -> (r: Value)
    ensures
        r == cast_spec(*v, t),
{
    match t {
        NDArrayType::Int => Value::Int(
            match v {
                Value::Int(i) => *i,
                Value::Float(x) => int_of_float(*x),
                Value::Bool(b) => if *b {
                    1
                } else {
                    0
                },
            },
        ),
        NDArrayType::Float => Value::Float(
            match v {
                Value::Int(i) => float_of_int(*i),
                Value::Float(x) => *x,
                Value::Bool(b) => if *b {
                    F64_ONE_BITS
                } else {
                    0
                },
            },
        ),
        NDArrayType::Bool => Value::Bool(
            match v {
                Value::Int(i) => *i != 0,
                Value::Float(x) => !float_is_zero(*x),
                Value::Bool(b) => *b,
            },
        ),
    }
}

// The element-wise binary operators. Scalar operands use the same table with
// the scalar lifted to a Value.
#[derive(Clone, Copy, PartialEq, Eq, Structural, Debug)]
pub enum BinOp {
    Sum,
    Sub,
    Mul,
    Div,
    Modulo,
    Eq,
    Neq,
    Lt,
    Gt,
    Leq,
    Geq,
}

pub open spec fn is_comparison(op: BinOp) -> bool {
    op == BinOp::Eq || op == BinOp::Neq || op == BinOp::Lt || op == BinOp::Gt || op == BinOp::Leq
        || op == BinOp::Geq
}

/// Truncated division, the meaning of `/` on machine integers, written as
/// vstd states it for checked_div.
pub open spec fn trunc_div(x: int, d: int) -> int {
    if x == 0 {
        0
    } else if x > 0 && d > 0 {
        x / d
    } else if x < 0 && d < 0 {
        (x * -1) / (d * -1)
    } else if x < 0 {
        ((x * -1) / d) * -1
    } else {
        (x / (d * -1)) * -1
    }
}

/// Truncated remainder, the meaning of `%` on machine integers, written as
/// vstd states it for checked_rem.
pub open spec fn trunc_rem(x: int, d: int) -> int {
    if x == 0 {
        0
    } else if x > 0 && d > 0 {
        x % d
    } else if x < 0 && d < 0 {
        ((x * -1) % (d * -1)) * -1
    } else if x < 0 {
        ((x * -1) % d) * -1
    } else {
        x % (d * -1)
    }
}

/// Whether the operator is defined for this pair of element types: only
/// division and modulo of two booleans are not.
pub open spec fn binop_ok(op: BinOp, ta: NDArrayType, tb: NDArrayType) -> bool {
    !((op == BinOp::Div || op == BinOp::Modulo) && promote(ta, tb) == NDArrayType::Bool)
}

/// The inputs on which the machine would fault: integer division by zero and
/// the one overflowing quotient. Callers must rule these out; floating-point
/// division is total.
pub open spec fn binop_defined(op: BinOp, a: Value, b: Value) -> bool {
    if (op == BinOp::Div || op == BinOp::Modulo) && promote(vtype(a), vtype(b)) == NDArrayType::Int {
        as_int(b) != 0 && !(as_int(a) == i64::MIN && as_int(b) == -1)
    } else {
        true
    }
}

/// The result element type of the operator on these operand types.
pub open spec fn binop_result_type(op: BinOp, ta: NDArrayType, tb: NDArrayType) -> NDArrayType {
    if is_comparison(op) {
        NDArrayType::Bool
    } else {
        promote(ta, tb)
    }
}

/// The value of the operator on two elements, per the promotion table:
/// Float wins, then Int; boolean `+`/`-` are XOR, boolean `*` is AND.
pub open spec fn binop_spec(op: BinOp, a: Value, b: Value) -> Value {
    let pt = promote(vtype(a), vtype(b));
    if pt == NDArrayType::Float {
        let x = as_float_bits(a);
        let y = as_float_bits(b);
        match op {
            BinOp::Sum => Value::Float(fadd_bits(x, y)),
            BinOp::Sub => Value::Float(fsub_bits(x, y)),
            BinOp::Mul => Value::Float(fmul_bits(x, y)),
            BinOp::Div => Value::Float(fdiv_bits(x, y)),
            BinOp::Modulo => Value::Float(fmod_bits(x, y)),
            BinOp::Eq => Value::Bool(f64_eq(x, y)),
            BinOp::Neq => Value::Bool(!f64_eq(x, y)),
            BinOp::Lt => Value::Bool(f64_lt(x, y)),
            BinOp::Gt => Value::Bool(f64_lt(y, x)),
            BinOp::Leq => Value::Bool(f64_le(x, y)),
            BinOp::Geq => Value::Bool(f64_le(y, x)),
        }
    } else if pt == NDArrayType::Int {
        let x = as_int(a);
        let y = as_int(b);
        match op {
            BinOp::Sum => Value::Int(x.wrapping_add(y)),
            BinOp::Sub => Value::Int(x.wrapping_sub(y)),
            BinOp::Mul => Value::Int(x.wrapping_mul(y)),
            BinOp::Div => Value::Int(trunc_div(x as int, y as int) as i64),
            BinOp::Modulo => Value::Int(trunc_rem(x as int, y as int) as i64),
            BinOp::Eq => Value::Bool(x == y),
            BinOp::Neq => Value::Bool(x != y),
            BinOp::Lt => Value::Bool(x < y),
            BinOp::Gt => Value::Bool(x > y),
            BinOp::Leq => Value::Bool(x <= y),
            BinOp::Geq => Value::Bool(x >= y),
        }
    } else {
        let x = as_bool(a);
        let y = as_bool(b);
        match op {
            BinOp::Sum => Value::Bool(x != y),  // XOR
            BinOp::Sub => Value::Bool(x != y),  // XOR
            BinOp::Mul => Value::Bool(x && y),  // AND
            BinOp::Div => Value::Bool(false),  // never defined; see binop_ok
            BinOp::Modulo => Value::Bool(false),  // never defined; see binop_ok
            BinOp::Eq => Value::Bool(x == y),
            BinOp::Neq => Value::Bool(x != y),
            BinOp::Lt => Value::Bool(!x && y),
            BinOp::Gt => Value::Bool(x && !y),
            BinOp::Leq => Value::Bool(!x || y),
            BinOp::Geq => Value::Bool(x || !y),
        }
    }
}

/// One cell of the promotion table, executed. Exactly the boolean
/// division/modulo cells are IncompatibleType errors.
pub fn binop_val(op: BinOp, a: &Value, b: &Value) -> (r: Result<Value, RyndError>)
    requires
        binop_defined(op, *a, *b),
    ensures
        binop_ok(op, vtype(*a), vtype(*b)) ==> r == Ok::<Value, RyndError>(binop_spec(op, *a, *b)),
        !binop_ok(op, vtype(*a), vtype(*b)) ==> r == Err::<Value, RyndError>(
            RyndError::IncompatibleType,
        ),
        r is Ok ==> vtype(r.unwrap()) == binop_result_type(op, vtype(*a), vtype(*b)),
{
    let ta = value_type(a);
    let tb = value_type(b);
    if ta == NDArrayType::Float || tb == NDArrayType::Float {
        let x = as_float_bits_exec(a);
        let y = as_float_bits_exec(b);
        match op {
            BinOp::Sum => Ok(Value::Float(float_add(x, y))),
            BinOp::Sub => Ok(Value::Float(float_sub(x, y))),
            BinOp::Mul => Ok(Value::Float(float_mul(x, y))),
            BinOp::Div => Ok(Value::Float(float_div(x, y))),
            BinOp::Modulo => Ok(Value::Float(float_mod(x, y))),
            BinOp::Eq => Ok(Value::Bool(float_eq(x, y))),
            BinOp::Neq => Ok(Value::Bool(!float_eq(x, y))),
            BinOp::Lt => Ok(Value::Bool(float_lt(x, y))),
            BinOp::Gt => Ok(Value::Bool(float_lt(y, x))),
            BinOp::Leq => Ok(Value::Bool(float_le(x, y))),
            BinOp::Geq => Ok(Value::Bool(float_le(y, x))),
        }
    } else if ta == NDArrayType::Int || tb == NDArrayType::Int {
        let x = as_int_exec(a);
        let y = as_int_exec(b);
        match op {
            BinOp::Sum => Ok(Value::Int(x.wrapping_add(y))),
            BinOp::Sub => Ok(Value::Int(x.wrapping_sub(y))),
            BinOp::Mul => Ok(Value::Int(x.wrapping_mul(y))),
            BinOp::Div => {
                proof {
                    lemma_trunc_div_in_range(x as int, y as int);
                }
                Ok(Value::Int(x.checked_div(y).unwrap()))
            },
            BinOp::Modulo => Ok(Value::Int(x.checked_rem(y).unwrap())),
            BinOp::Eq => Ok(Value::Bool(x == y)),
            BinOp::Neq => Ok(Value::Bool(x != y)),
            BinOp::Lt => Ok(Value::Bool(x < y)),
            BinOp::Gt => Ok(Value::Bool(x > y)),
            BinOp::Leq => Ok(Value::Bool(x <= y)),
            BinOp::Geq => Ok(Value::Bool(x >= y)),
        }
    } else {
        let x = as_bool_exec(a);
        let y = as_bool_exec(b);
        match op {
            BinOp::Sum => Ok(Value::Bool(x != y)),
            BinOp::Sub => Ok(Value::Bool(x != y)),
            BinOp::Mul => Ok(Value::Bool(x && y)),
            BinOp::Div => Err(RyndError::IncompatibleType),
            BinOp::Modulo => Err(RyndError::IncompatibleType),
            BinOp::Eq => Ok(Value::Bool(x == y)),
            BinOp::Neq => Ok(Value::Bool(x != y)),
            BinOp::Lt => Ok(Value::Bool(!x && y)),
            BinOp::Gt => Ok(Value::Bool(x && !y)),
            BinOp::Leq => Ok(Value::Bool(!x || y)),
            BinOp::Geq => Ok(Value::Bool(x || !y)),
        }
    }
}

/// The truncated quotient of two in-range machine integers fits, except for
/// the one overflowing pair, which callers exclude.
proof fn lemma_trunc_div_in_range(x: int, d: int)
    requires
        i64::MIN <= x <= i64::MAX,
        i64::MIN <= d <= i64::MAX,
        d != 0,
        !(x == i64::MIN && d == -1),
    ensures
        i64::MIN <= trunc_div(x, d) <= i64::MAX,
{
    if x > 0 && d > 0 {
        lemma_div_pos_is_pos(x, d);
        lemma_div_nonincreasing(x, d);
    } else if x < 0 && d < 0 {
        lemma_div_pos_is_pos(x * -1, d * -1);
        lemma_div_nonincreasing(x * -1, d * -1);
        if x == i64::MIN {
            // d <= -2, so the quotient is at most 2^62
            lemma_fundamental_div_mod_converse_div(
                0x8000_0000_0000_0000,
                2,
                0x4000_0000_0000_0000,
                0,
            );
            lemma_div_is_ordered_by_denominator(x * -1, 2, d * -1);
        }
    } else if x < 0 {
        lemma_div_pos_is_pos(x * -1, d);
        lemma_div_nonincreasing(x * -1, d);
    } else if x > 0 {
        lemma_div_pos_is_pos(x, d * -1);
        lemma_div_nonincreasing(x, d * -1);
    }
}

pub fn as_float_bits_exec(v: &Value) -> (r: u64)
    ensures
        r == as_float_bits(*v),
{
    match v {
        Value::Int(i) => float_of_int(*i),
        Value::Float(x) => *x,
        Value::Bool(b) => if *b {
            F64_ONE_BITS
        } else {
            0
        },
    }
}

pub fn as_int_exec(v: &Value) -> (r: i64)
    ensures
        r == as_int(*v),
{
    match v {
        Value::Int(i) => *i,
        Value::Float(x) => int_of_float(*x),
        Value::Bool(b) => if *b {
            1
        } else {
            0
        },
    }
}

pub fn as_bool_exec(v: &Value) -> (r: bool)
    ensures
        r == as_bool(*v),
{
    match v {
        Value::Int(i) => *i != 0,
        Value::Float(x) => !float_is_zero(*x),
        Value::Bool(b) => *b,
    }
}

// Ordering of same-typed values, the key order of sort, argsort, min and max.
// On floats it is the IEEE order, which is partial: NaN compares with
// nothing, so those operations exclude NaN inputs.

pub open spec fn value_is_nan(v: Value) -> bool {
    match v {
        Value::Float(x) => f64_is_nan(x),
        _ => false,
    }
}

/// Strict key order between two same-typed values.
pub open spec fn value_lt(a: Value, b: Value) -> bool {
    match (a, b) {
        (Value::Int(x), Value::Int(y)) => x < y,
        (Value::Float(x), Value::Float(y)) => f64_lt(x, y),
        (Value::Bool(x), Value::Bool(y)) => !x && y,
        _ => false,
    }
}

/// Non-strict key order between two same-typed values.
pub open spec fn value_le(a: Value, b: Value) -> bool {
    match (a, b) {
        (Value::Int(x), Value::Int(y)) => x <= y,
        (Value::Float(x), Value::Float(y)) => f64_le(x, y),
        (Value::Bool(x), Value::Bool(y)) => !x || y,
        _ => false,
    }
}

pub fn value_lt_exec(a: &Value, b: &Value) -> (r: bool)
    requires
        vtype(*a) == vtype(*b),
    ensures
        r == value_lt(*a, *b),
{
    match (a, b) {
        (Value::Int(x), Value::Int(y)) => *x < *y,
        (Value::Float(x), Value::Float(y)) => float_lt(*x, *y),
        (Value::Bool(x), Value::Bool(y)) => !*x && *y,
        _ => false,
    }
}

pub fn value_le_exec(a: &Value, b: &Value) -> (r: bool)
    requires
        vtype(*a) == vtype(*b),
    ensures
        r == value_le(*a, *b),
{
    match (a, b) {
        (Value::Int(x), Value::Int(y)) => *x <= *y,
        (Value::Float(x), Value::Float(y)) => float_le(*x, *y),
        (Value::Bool(x), Value::Bool(y)) => !*x || *y,
        _ => false,
    }
}

/// On same-typed non-NaN values the key order is total: trichotomy,
/// transitivity and antisymmetry up to IEEE equality of zeroes.
pub proof fn lemma_value_order_total(a: Value, b: Value)
    requires
        vtype(a) == vtype(b),
        !value_is_nan(a),
        !value_is_nan(b),
    ensures
        value_le(a, b) || value_le(b, a),
        value_lt(a, b) ==> value_le(a, b),
        value_le(a, b) || value_lt(b, a),
        !(value_lt(a, b) && value_lt(b, a)),
{
}

pub proof fn lemma_value_order_trans(a: Value, b: Value, c: Value)
    requires
        vtype(a) == vtype(b),
        vtype(b) == vtype(c),
        value_le(a, b),
        value_le(b, c),
    ensures
        value_le(a, c),
{
    if a is Float {
        crate::floatbits::lemma_f64_order(a->Float_0, b->Float_0, c->Float_0);
    }
}


// How a power operation dispatches on its operand types: two booleans
// combine as AND; every other pair is computed in floating point, whatever
// the operands, integers included.
#[derive(Clone, Copy, PartialEq, Eq, Structural, Debug)]
pub enum PowKind {
    BoolAnd,
    FloatPow,
}

pub fn pow_plan(ta: NDArrayType, tb: NDArrayType) -> (r: PowKind)
    ensures
        r == (if ta == NDArrayType::Bool && tb == NDArrayType::Bool {
            PowKind::BoolAnd
        } else {
            PowKind::FloatPow
        }),
{
    if ta == NDArrayType::Bool && tb == NDArrayType::Bool {
        PowKind::BoolAnd
    } else {
        PowKind::FloatPow
    }
}

} // verus!
