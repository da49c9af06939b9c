use crate::constant::Constant;
use crate::opcode::BinaryOp;
use vstd::prelude::*;

verus! {

/// What the embedding program supplies to the machine: its native functions,
/// and arithmetic on IEEE-754 doubles, which reach the machine as bit patterns.
///
/// The machine's contracts hold whatever these methods return.
pub trait Host {
    /// Runs the native function numbered `id` on its arguments, given in the
    /// order of the function's labels, and returns its result.
    fn call_native(&mut self, id: u32, args: Vec<Constant>) -> Constant;

    /// The bit pattern of the double that an integer converts to.
    fn real_from_integer(&mut self, value: i64) -> u64;

    /// The bit pattern of `lhs op rhs` computed on doubles.
    fn real_arith(&mut self, op: BinaryOp, lhs: u64, rhs: u64) -> u64
        requires
            op is Add || op is Subtract || op is Multiply || op is Divide,
    ;
}

} // verus!
