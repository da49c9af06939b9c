use crate::opcode::{Opcode, OpcodeView};
use vstd::prelude::*;

verus! {

/// One instruction: an operation and the source line it was compiled from.
#[derive(Debug, Clone, PartialEq)]
pub struct Instruction {
    pub line_number: u32,
    pub opcode: Opcode,
}

/// An instruction as a mathematical value.
pub struct InstructionView {
    pub line_number: u32,
    pub opcode: OpcodeView,
}

impl View for Instruction {
    type V = InstructionView;

    open spec fn view(&self) -> InstructionView {
        InstructionView { line_number: self.line_number, opcode: self.opcode@ }
    }
}

/// Whether two instruction lists are the same, instruction by instruction.
pub fn same_code(a: &Vec<Instruction>, b: &Vec<Instruction>) -> (r: bool)
    ensures
        r == (a@.map_values(|t: Instruction| t@) == b@.map_values(|t: Instruction| t@)),
{
    let ghost va = a@.map_values(|t: Instruction| t@);
    let ghost vb = b@.map_values(|t: Instruction| t@);
    if a.len() != b.len() {
        assert(va.len() != vb.len());
        return false;
    }
    let mut i: usize = 0;
    while i < a.len()
        invariant
            a@.len() == b@.len(),
            i <= a@.len(),
            va == a@.map_values(|t: Instruction| t@),
            vb == b@.map_values(|t: Instruction| t@),
            forall|k: int| 0 <= k < i ==> va[k] == vb[k],
        decreases a@.len() - i,
    {
        if a[i].line_number != b[i].line_number || !a[i].opcode.same(&b[i].opcode) {
            assert(va[i as int] != vb[i as int]);
            return false;
        }
        i = i + 1;
    }
    assert(va =~= vb);
    true
}

} // verus!
