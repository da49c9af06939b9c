use crate::host::Host;
use crate::instruction::{same_code, Instruction};
use crate::josa::{same_map, JosaMap};
use crate::opcode::{BinaryOp, UnaryOp};
use crate::shared::share;
use std::cmp::Ordering;
use std::rc::Rc;
use vstd::prelude::*;

verus! {

/// A value of the language.
#[derive(Debug)]
pub enum Constant {
    Nil,
    Integer(i64),
    /// An IEEE-754 double, held as its bit pattern.
    Real(u64),
    Char(char),
    Boolean(bool),
    /// A function, with the arguments bound to it so far.
    Function { josa_map: JosaMap, func_object: FuncObject },
}

/// What a function value runs when all its slots are filled.
#[derive(Debug)]
pub enum FuncObject {
    /// Bytecode, with its own constants and the values it captured.
    CodeObject {
        code: Rc<Vec<Instruction>>,
        const_table: Rc<Vec<Constant>>,
        free_vars: Rc<Vec<Constant>>,
    },
    /// A function of the embedding program, known by its number.
    NativeFunc { id: u32 },
}

impl Clone for FuncObject {
    fn clone(&self) -> (r: Self)
        ensures
            r == *self,
    {
        match self {
            FuncObject::CodeObject { code, const_table, free_vars } => FuncObject::CodeObject {
                code: share(code),
                const_table: share(const_table),
                free_vars: share(free_vars),
            },
            FuncObject::NativeFunc { id } => FuncObject::NativeFunc { id: *id },
        }
    }
}

impl Clone for Constant {
    fn clone(&self) -> (r: Self)
        ensures
            r == *self,
    {
        match self {
            Constant::Nil => Constant::Nil,
            Constant::Integer(v) => Constant::Integer(*v),
            Constant::Real(v) => Constant::Real(*v),
            Constant::Char(c) => Constant::Char(*c),
            Constant::Boolean(b) => Constant::Boolean(*b),
            Constant::Function { josa_map, func_object } => Constant::Function {
                josa_map: josa_map.clone(),
                func_object: func_object.clone(),
            },
        }
    }
}

/// The sign bit of a double's bit pattern.
pub const SIGN_BIT: u64 = 0x8000_0000_0000_0000;

/// Whether a double's bit pattern is a NaN: all exponent bits set and a
/// fraction that is not zero.
pub open spec fn is_nan_bits(b: u64) -> bool {
    b & 0x7ff0_0000_0000_0000 == 0x7ff0_0000_0000_0000 && b & 0x000f_ffff_ffff_ffff != 0
}

/// A key that orders the doubles that are not NaN as their values are
/// ordered: the magnitude bits, negated for a negative sign. Both zeros
/// get the key 0.
pub open spec fn real_key(b: u64) -> int {
    let mag = (b & 0x7fff_ffff_ffff_ffff) as int;
    if b & SIGN_BIT != 0 {
        -mag
    } else {
        mag
    }
}

/// The three-way order of two integers.
pub open spec fn order_of(a: int, b: int) -> Ordering {
    if a < b {
        Ordering::Less
    } else if a > b {
        Ordering::Greater
    } else {
        Ordering::Equal
    }
}

/// The order of two doubles given by their bit patterns; `None` when either
/// is NaN.
pub open spec fn real_order(a: u64, b: u64) -> Option<Ordering> {
    if is_nan_bits(a) || is_nan_bits(b) {
        None
    } else {
        Some(order_of(real_key(a), real_key(b)))
    }
}

/// Compares two doubles given by their bit patterns.
pub fn compare_reals(a: u64, b: u64) -> (r: Option<Ordering>)
    ensures
        r == real_order(a, b),
{
    let nan_a = a & 0x7ff0_0000_0000_0000 == 0x7ff0_0000_0000_0000 && a & 0x000f_ffff_ffff_ffff != 0;
    let nan_b = b & 0x7ff0_0000_0000_0000 == 0x7ff0_0000_0000_0000 && b & 0x000f_ffff_ffff_ffff != 0;
    if nan_a || nan_b {
        return None;
    }
    let mag_a = (a & 0x7fff_ffff_ffff_ffff) as i64;
    let mag_b = (b & 0x7fff_ffff_ffff_ffff) as i64;
    proof {
        assert(a & 0x7fff_ffff_ffff_ffff <= 0x7fff_ffff_ffff_ffff) by (bit_vector);
        assert(b & 0x7fff_ffff_ffff_ffff <= 0x7fff_ffff_ffff_ffff) by (bit_vector);
    }
    let key_a: i64 = if a & SIGN_BIT != 0 { -mag_a } else { mag_a };
    let key_b: i64 = if b & SIGN_BIT != 0 { -mag_b } else { mag_b };
    if key_a < key_b {
        Some(Ordering::Less)
    } else if key_a > key_b {
        Some(Ordering::Greater)
    } else {
        Some(Ordering::Equal)
    }
}

/// The three-way order of two chars, by code point.
pub fn compare_chars(a: char, b: char) -> (r: Ordering)
    ensures
        r == order_of(a as int, b as int),
{
    let x = a as u32;
    let y = b as u32;
    if x < y {
        Ordering::Less
    } else if x > y {
        Ordering::Greater
    } else {
        Ordering::Equal
    }
}

/// The result of an arithmetic operator on two integers: two's-complement
/// wrapping for `+`, `-` and `*`; truncating division and remainder, with
/// no result for a zero divisor or for `i64::MIN / -1`.
pub open spec fn integer_arith(op: BinaryOp, a: i64, b: i64) -> Option<i64> {
    match op {
        BinaryOp::Add => Some(a.wrapping_add(b)),
        BinaryOp::Subtract => Some(a.wrapping_sub(b)),
        BinaryOp::Multiply => Some(a.wrapping_mul(b)),
        BinaryOp::Divide => a.checked_div(b),
        BinaryOp::Mod => a.checked_rem(b),
        BinaryOp::Cmp(_) => None,
    }
}

/// Whether an operator is one of `+ - * /`, defined on every pair of numbers.
pub open spec fn is_real_arith(op: BinaryOp) -> bool {
    op is Add || op is Subtract || op is Multiply || op is Divide
}

/// The result of a binary operator where it does not depend on double
/// arithmetic: on two integers, on two chars, and comparisons of two reals.
/// `None` where the operator is not defined on the operands.
pub open spec fn exact_binary(op: BinaryOp, lhs: Constant, rhs: Constant) -> Option<Constant> {
    match (lhs, rhs) {
        (Constant::Integer(a), Constant::Integer(b)) => match op {
            BinaryOp::Cmp(o) => Some(Constant::Boolean(order_of(a as int, b as int) == o)),
            _ => match integer_arith(op, a, b) {
                Some(v) => Some(Constant::Integer(v)),
                None => None,
            },
        },
        (Constant::Real(a), Constant::Real(b)) => match op {
            BinaryOp::Cmp(o) => match real_order(a, b) {
                Some(r) => Some(Constant::Boolean(r == o)),
                None => None,
            },
            _ => None,
        },
        (Constant::Char(a), Constant::Char(b)) => match op {
            BinaryOp::Cmp(o) => Some(Constant::Boolean(order_of(a as int, b as int) == o)),
            _ => None,
        },
        _ => None,
    }
}

/// Whether a binary operator yields a value on these operands: arithmetic
/// `+ - * /` on any two numbers, with integer division needing a divisor
/// that gives a result; `%` on two integers alike; comparison of two
/// numbers or two chars, where two reals must not be NaN.
pub open spec fn binary_defined(op: BinaryOp, lhs: Constant, rhs: Constant) -> bool {
    match (lhs, rhs) {
        (Constant::Integer(_), Constant::Integer(_)) => exact_binary(op, lhs, rhs) is Some,
        (Constant::Real(_), Constant::Real(_)) => is_real_arith(op) || exact_binary(op, lhs, rhs) is Some,
        (Constant::Char(_), Constant::Char(_)) => op is Cmp,
        (Constant::Integer(_), Constant::Real(_)) | (Constant::Real(_), Constant::Integer(_)) =>
            is_real_arith(op) || op is Cmp,
        _ => false,
    }
}

/// A comparison of an integer with a real, defined unless the double that
/// the integer converts to compares as unordered.
pub open spec fn mixed_comparison(op: BinaryOp, lhs: Constant, rhs: Constant) -> bool {
    op is Cmp && ((lhs is Integer && rhs is Real) || (lhs is Real && rhs is Integer))
}

impl Constant {
    /// The type's name, as error messages show it.
    pub open spec fn spec_type_label(self) -> Seq<char> {
        match self {
            Constant::Nil => "(없음)"@,
            Constant::Integer(_) => "정수"@,
            Constant::Real(_) => "실수"@,
            Constant::Char(_) => "문자"@,
            Constant::Boolean(_) => "부울"@,
            Constant::Function { .. } => "함수"@,
        }
    }

    pub fn type_label(&self) -> (r: &'static str)
        ensures
            r@ == self.spec_type_label(),
    {
        match self {
            Constant::Nil => "(없음)",
            Constant::Integer(_) => "정수",
            Constant::Real(_) => "실수",
            Constant::Char(_) => "문자",
            Constant::Boolean(_) => "부울",
            Constant::Function { .. } => "함수",
        }
    }

    /// The result of a unary operator: integers negate with two's-complement
    /// wrapping, reals by flipping the sign bit; `None` for other values.
    pub open spec fn spec_unary(self, op: UnaryOp) -> Option<Constant> {
        match self {
            Constant::Integer(v) => Some(Constant::Integer(if v == i64::MIN { v } else { (-v) as i64 })),
            Constant::Real(b) => Some(Constant::Real(b ^ SIGN_BIT)),
            _ => None,
        }
    }

    pub fn unary_op(&self, op: UnaryOp) -> (r: Option<Constant>)
        ensures
            r == self.spec_unary(op),
    {
        match self {
            Constant::Integer(v) => {
                let v = *v;
                Some(Constant::Integer(if v == i64::MIN { v } else { -v }))
            },
            Constant::Real(b) => Some(Constant::Real(*b ^ SIGN_BIT)),
            _ => None,
        }
    }

    /// The order of two values: integers and chars by value, reals as
    /// doubles, and an integer against a real after converting the integer
    /// to a double. Other pairs are unordered.
    pub fn compare<H: Host>(&self, other: &Constant, host: &mut H) -> (r: Option<Ordering>)
        ensures
            (self is Integer && other is Integer) ==> r == Some(order_of(self->Integer_0 as int, other->Integer_0 as int)),
            (self is Real && other is Real) ==> r == real_order(self->Real_0, other->Real_0),
            (self is Char && other is Char) ==> r == Some(order_of(self->Char_0 as int, other->Char_0 as int)),
            (self is Integer && other is Real) ==> exists|x: u64| r == real_order(x, other->Real_0),
            (self is Real && other is Integer) ==> exists|x: u64| r == real_order(self->Real_0, x),
            !(self is Integer || self is Real || self is Char) || !(other is Integer || other is Real || other is Char)
                || (self is Char) != (other is Char) ==> r is None,
    {
        match (self, other) {
            (Constant::Integer(a), Constant::Integer(b)) => Some(compare_ints(*a, *b)),
            (Constant::Real(a), Constant::Real(b)) => compare_reals(*a, *b),
            (Constant::Char(a), Constant::Char(b)) => Some(compare_chars(*a, *b)),
            (Constant::Integer(a), Constant::Real(b)) => {
                let a = host.real_from_integer(*a);
                compare_reals(a, *b)
            },
            (Constant::Real(a), Constant::Integer(b)) => {
                let b = host.real_from_integer(*b);
                compare_reals(*a, b)
            },
            _ => None,
        }
    }

    /// Applies a binary operator. Where one operand is an integer and the
    /// other a real, the integer is first converted to a double; arithmetic
    /// on doubles is the host's.
    pub fn binary_op<H: Host>(&self, op: BinaryOp, rhs: &Constant, host: &mut H) -> (r: Option<Constant>)
        ensures
            r is Some ==> binary_defined(op, *self, *rhs),
            binary_defined(op, *self, *rhs) && !mixed_comparison(op, *self, *rhs) ==> r is Some,
            exact_binary(op, *self, *rhs) is Some ==> r == exact_binary(op, *self, *rhs),
            binary_defined(op, *self, *rhs) && is_real_arith(op) && (self is Real || rhs is Real)
                ==> r matches Some(Constant::Real(_)),
            op is Cmp && r is Some ==> r matches Some(Constant::Boolean(_)),
    {
        if let BinaryOp::Cmp(o) = op {
            return match self.compare(rhs, host) {
                Some(ord) => Some(Constant::Boolean(order_eq(ord, o))),
                None => None,
            };
        }
        match (self, rhs) {
            (Constant::Integer(a), Constant::Integer(b)) => {
                let (a, b) = (*a, *b);
                match op {
                    BinaryOp::Add => Some(Constant::Integer(a.wrapping_add(b))),
                    BinaryOp::Subtract => Some(Constant::Integer(a.wrapping_sub(b))),
                    BinaryOp::Multiply => Some(Constant::Integer(a.wrapping_mul(b))),
                    BinaryOp::Divide => match a.checked_div(b) {
                        Some(v) => Some(Constant::Integer(v)),
                        None => None,
                    },
                    BinaryOp::Mod => match a.checked_rem(b) {
                        Some(v) => Some(Constant::Integer(v)),
                        None => None,
                    },
                    BinaryOp::Cmp(_) => None,
                }
            },
            (Constant::Real(a), Constant::Real(b)) => reals_arith(op, *a, *b, host),
            (Constant::Integer(a), Constant::Real(b)) => {
                let a = host.real_from_integer(*a);
                reals_arith(op, a, *b, host)
            },
            (Constant::Real(a), Constant::Integer(b)) => {
                let b = host.real_from_integer(*b);
                reals_arith(op, *a, b, host)
            },
            _ => None,
        }
    }
}

fn order_eq(a: Ordering, b: Ordering) -> (r: bool)
    ensures
        r == (a == b),
{
    match (a, b) {
        (Ordering::Less, Ordering::Less) => true,
        (Ordering::Equal, Ordering::Equal) => true,
        (Ordering::Greater, Ordering::Greater) => true,
        _ => false,
    }
}

fn compare_ints(a: i64, b: i64) -> (r: Ordering)
    ensures
        r == order_of(a as int, b as int),
{
    if a < b {
        Ordering::Less
    } else if a > b {
        Ordering::Greater
    } else {
        Ordering::Equal
    }
}

/// An arithmetic operator on two doubles given by their bit patterns.
fn reals_arith<H: Host>(op: BinaryOp, a: u64, b: u64, host: &mut H) -> (r: Option<Constant>)
    requires
        !(op is Cmp),
    ensures
        r is Some <==> is_real_arith(op),
        is_real_arith(op) ==> r matches Some(Constant::Real(_)),
{
    match op {
        BinaryOp::Mod => None,
        _ => Some(Constant::Real(host.real_arith(op, a, b))),
    }
}

/// Equality of values: structural within a variant, never across variants.
/// Reals compare as doubles, so NaN equals nothing and the two zeros are
/// equal. Functions are equal when their slots are and their bytecode,
/// constants and captured values are; a native function equals nothing.
pub open spec fn same_value(a: Constant, b: Constant) -> bool
    decreases a, 1int,
{
    match (a, b) {
        (Constant::Nil, Constant::Nil) => true,
        (Constant::Integer(x), Constant::Integer(y)) => x == y,
        (Constant::Real(x), Constant::Real(y)) => real_order(x, y) == Some(Ordering::Equal),
        (Constant::Char(x), Constant::Char(y)) => x == y,
        (Constant::Boolean(x), Constant::Boolean(y)) => x == y,
        (
            Constant::Function { josa_map: m1, func_object: f1 },
            Constant::Function { josa_map: m2, func_object: f2 },
        ) => same_map(m1, m2) && same_func(f1, f2),
        _ => false,
    }
}

/// Equality of functions: two bytecode functions with the same code,
/// equal constants and equal captured values; never a native function.
pub open spec fn same_func(a: FuncObject, b: FuncObject) -> bool
    decreases a, 1int,
{
    match (a, b) {
        (
            FuncObject::CodeObject { code: c1, const_table: t1, free_vars: v1 },
            FuncObject::CodeObject { code: c2, const_table: t2, free_vars: v2 },
        ) => {
            &&& c1@.map_values(|t: Instruction| t@) == c2@.map_values(|t: Instruction| t@)
            &&& t1@.len() == t2@.len()
            &&& (forall|i: int| 0 <= i < t1@.len() ==> same_value(#[trigger] t1@[i], t2@[i]))
            &&& v1@.len() == v2@.len()
            &&& (forall|i: int| 0 <= i < v1@.len() ==> same_value(#[trigger] v1@[i], v2@[i]))
        },
        _ => false,
    }
}

fn same_values(a: &Vec<Constant>, b: &Vec<Constant>) -> (r: bool)
    ensures
        r == (a@.len() == b@.len() && forall|i: int| 0 <= i < a@.len() ==> same_value(#[trigger] a@[i], b@[i])),
    decreases a, 0int,
{
    if a.len() != b.len() {
        return false;
    }
    let mut i: usize = 0;
    while i < a.len()
        invariant
            a@.len() == b@.len(),
            i <= a@.len(),
            forall|k: int| 0 <= k < i ==> same_value(#[trigger] a@[k], b@[k]),
        decreases a@.len() - i,
    {
        proof {
            assert(decreases_to!(a => a@[i as int]));
        }
        if !values_equal(&a[i], &b[i]) {
            return false;
        }
        i = i + 1;
    }
    true
}

/// Whether two values are equal.
pub fn values_equal(a: &Constant, b: &Constant) -> (r: bool)
    ensures
        r == same_value(*a, *b),
    decreases a, 2int,
{
    match (a, b) {
        (Constant::Nil, Constant::Nil) => true,
        (Constant::Integer(x), Constant::Integer(y)) => x == y,
        (Constant::Real(x), Constant::Real(y)) => match compare_reals(*x, *y) {
            Some(Ordering::Equal) => true,
            _ => false,
        },
        (Constant::Char(x), Constant::Char(y)) => x == y,
        (Constant::Boolean(x), Constant::Boolean(y)) => x == y,
        (
            Constant::Function { josa_map: m1, func_object: f1 },
            Constant::Function { josa_map: m2, func_object: f2 },
        ) => m1.same_as(m2) && funcs_equal(f1, f2),
        _ => false,
    }
}

/// Whether two functions are equal.
pub fn funcs_equal(a: &FuncObject, b: &FuncObject) -> (r: bool)
    ensures
        r == same_func(*a, *b),
    decreases a, 2int,
{
    match (a, b) {
        (
            FuncObject::CodeObject { code: c1, const_table: t1, free_vars: v1 },
            FuncObject::CodeObject { code: c2, const_table: t2, free_vars: v2 },
        ) => same_code(c1, c2) && same_values(t1, t2) && same_values(v1, v2),
        _ => false,
    }
}

impl PartialEq for Constant {
    fn eq(&self, other: &Constant) -> (r: bool)
        ensures
            r == same_value(*self, *other),
    {
        values_equal(self, other)
    }
}

impl vstd::std_specs::cmp::PartialEqSpecImpl for Constant {
    open spec fn obeys_eq_spec() -> bool {
        true
    }

    open spec fn eq_spec(&self, other: &Constant) -> bool {
        same_value(*self, *other)
    }
}

impl PartialEq for FuncObject {
    fn eq(&self, other: &FuncObject) -> (r: bool)
        ensures
            r == same_func(*self, *other),
    {
        funcs_equal(self, other)
    }
}

impl vstd::std_specs::cmp::PartialEqSpecImpl for FuncObject {
    open spec fn obeys_eq_spec() -> bool {
        true
    }

    open spec fn eq_spec(&self, other: &FuncObject) -> bool {
        same_func(*self, *other)
    }
}

} // verus!
