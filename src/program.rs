use crate::constant::Constant;
use crate::instruction::Instruction;
use vstd::prelude::*;

verus! {

/// A loaded program: the top-level constants and code, and the names of
/// the global slots.
#[derive(Debug, PartialEq)]
pub struct Program {
    pub const_table: Vec<Constant>,
    pub code: Vec<Instruction>,
    pub global_var_names: Vec<String>,
}

} // verus!
