use std::cmp::Ordering;
use vstd::prelude::*;

verus! {

/// A binary operator of the language.
#[derive(Debug, Clone, Copy, PartialEq, Eq)]
pub enum BinaryOp {
    Add,
    Subtract,
    Multiply,
    Divide,
    Mod,
    /// Compares the operands and yields whether their order is the one given.
    Cmp(Ordering),
}

impl BinaryOp {
    /// The display name of the operator, as error messages show it.
    pub open spec fn spec_op_name(self) -> Seq<char> {
        match self {
            BinaryOp::Add => "더하기"@,
            BinaryOp::Subtract => "빼기"@,
            BinaryOp::Multiply => "곱하기"@,
            BinaryOp::Divide => "나누기"@,
            BinaryOp::Mod => "나머지"@,
            BinaryOp::Cmp(_) => "비교"@,
        }
    }

    pub fn op_name(&self) -> (r: &'static str)
        ensures
            r@ == self.spec_op_name(),
    {
        match self {
            BinaryOp::Add => "더하기",
            BinaryOp::Subtract => "빼기",
            BinaryOp::Multiply => "곱하기",
            BinaryOp::Divide => "나누기",
            BinaryOp::Mod => "나머지",
            BinaryOp::Cmp(_) => "비교",
        }
    }
}

/// A unary operator of the language.
#[derive(Debug, Clone, Copy, PartialEq, Eq)]
pub enum UnaryOp {
    Negate,
}

impl UnaryOp {
    /// The display name of the operator, as error messages show it.
    pub open spec fn spec_op_name(self) -> Seq<char> {
        match self {
            UnaryOp::Negate => "부호 반전"@,
        }
    }

    pub fn op_name(&self) -> (r: &'static str)
        ensures
            r@ == self.spec_op_name(),
    {
        match self {
            UnaryOp::Negate => "부호 반전",
        }
    }
}

/// An operation of the virtual machine, with its operand.
#[derive(Debug, Clone, PartialEq)]
pub enum Opcode {
    /// Pushes a copy of an entry of the frame's constant table.
    Push(u32),
    /// Discards the top of the stack.
    Pop,
    /// Pushes a copy of a local slot of the frame.
    Load(u32),
    /// Pushes a copy of a captured free variable of the frame.
    LoadDeref(u32),
    /// Moves the top of the stack into a global slot.
    StoreGlobal(u32),
    /// Pushes a copy of a global slot; fails if the slot is empty.
    LoadGlobal(u32),
    /// Calls the function on top of the stack with arguments named by these labels.
    Call(Vec<String>),
    /// Continues at the given offset.
    Jmp(u32),
    /// Pops a boolean and continues at the given offset if it is false.
    PopJmpIfFalse(u32),
    /// Appends a copy of a local slot to the free variables of the closure on top.
    FreeVarLocal(u8),
    /// Appends a copy of a free variable of the frame to the closure on top.
    FreeVarFree(u8),
    BinaryOp(BinaryOp),
    UnaryOp(UnaryOp),
}

/// An operation as a mathematical value: the labels of a call are
/// sequences of characters.
pub enum OpcodeView {
    Push(u32),
    Pop,
    Load(u32),
    LoadDeref(u32),
    StoreGlobal(u32),
    LoadGlobal(u32),
    Call(Seq<Seq<char>>),
    Jmp(u32),
    PopJmpIfFalse(u32),
    FreeVarLocal(u8),
    FreeVarFree(u8),
    BinaryOp(BinaryOp),
    UnaryOp(UnaryOp),
}

impl View for Opcode {
    type V = OpcodeView;

    open spec fn view(&self) -> OpcodeView {
        match self {
            Opcode::Push(v) => OpcodeView::Push(*v),
            Opcode::Pop => OpcodeView::Pop,
            Opcode::Load(v) => OpcodeView::Load(*v),
            Opcode::LoadDeref(v) => OpcodeView::LoadDeref(*v),
            Opcode::StoreGlobal(v) => OpcodeView::StoreGlobal(*v),
            Opcode::LoadGlobal(v) => OpcodeView::LoadGlobal(*v),
            Opcode::Call(given) => OpcodeView::Call(given@.map_values(|s: String| s@)),
            Opcode::Jmp(v) => OpcodeView::Jmp(*v),
            Opcode::PopJmpIfFalse(v) => OpcodeView::PopJmpIfFalse(*v),
            Opcode::FreeVarLocal(v) => OpcodeView::FreeVarLocal(*v),
            Opcode::FreeVarFree(v) => OpcodeView::FreeVarFree(*v),
            Opcode::BinaryOp(op) => OpcodeView::BinaryOp(*op),
            Opcode::UnaryOp(op) => OpcodeView::UnaryOp(*op),
        }
    }
}

fn same_ordering(a: Ordering, b: Ordering) -> (r: bool)
    ensures
        r == (a == b),
{
    match (a, b) {
        (Ordering::Less, Ordering::Less) => true,
        (Ordering::Equal, Ordering::Equal) => true,
        (Ordering::Greater, Ordering::Greater) => true,
        _ => false,
    }
}

fn same_labels(a: &Vec<String>, b: &Vec<String>) -> (r: bool)
    ensures
        r == (a@.map_values(|s: String| s@) == b@.map_values(|s: String| s@)),
{
    let ghost va = a@.map_values(|s: String| s@);
    let ghost vb = b@.map_values(|s: String| s@);
    if a.len() != b.len() {
        assert(va.len() != vb.len());
        return false;
    }
    let mut i: usize = 0;
    while i < a.len()
        invariant
            a@.len() == b@.len(),
            i <= a@.len(),
            va == a@.map_values(|s: String| s@),
            vb == b@.map_values(|s: String| s@),
            forall|k: int| 0 <= k < i ==> va[k] == vb[k],
        decreases a@.len() - i,
    {
        if a[i] != b[i] {
            assert(va[i as int] != vb[i as int]);
            return false;
        }
        i = i + 1;
    }
    assert(va =~= vb);
    true
}

impl BinaryOp {
    /// Whether two operators are the same.
    pub fn same(&self, other: &BinaryOp) -> (r: bool)
        ensures
            r == (*self == *other),
    {
        match (self, other) {
            (BinaryOp::Add, BinaryOp::Add) => true,
            (BinaryOp::Subtract, BinaryOp::Subtract) => true,
            (BinaryOp::Multiply, BinaryOp::Multiply) => true,
            (BinaryOp::Divide, BinaryOp::Divide) => true,
            (BinaryOp::Mod, BinaryOp::Mod) => true,
            (BinaryOp::Cmp(a), BinaryOp::Cmp(b)) => same_ordering(*a, *b),
            _ => false,
        }
    }
}

impl Opcode {
    /// Whether two operations are the same, operands included.
    pub fn same(&self, other: &Opcode) -> (r: bool)
        ensures
            r == (self@ == other@),
    {
        match (self, other) {
            (Opcode::Push(a), Opcode::Push(b)) => a == b,
            (Opcode::Pop, Opcode::Pop) => true,
            (Opcode::Load(a), Opcode::Load(b)) => a == b,
            (Opcode::LoadDeref(a), Opcode::LoadDeref(b)) => a == b,
            (Opcode::StoreGlobal(a), Opcode::StoreGlobal(b)) => a == b,
            (Opcode::LoadGlobal(a), Opcode::LoadGlobal(b)) => a == b,
            (Opcode::Call(a), Opcode::Call(b)) => same_labels(a, b),
            (Opcode::Jmp(a), Opcode::Jmp(b)) => a == b,
            (Opcode::PopJmpIfFalse(a), Opcode::PopJmpIfFalse(b)) => a == b,
            (Opcode::FreeVarLocal(a), Opcode::FreeVarLocal(b)) => a == b,
            (Opcode::FreeVarFree(a), Opcode::FreeVarFree(b)) => a == b,
            (Opcode::BinaryOp(a), Opcode::BinaryOp(b)) => a.same(b),
            (Opcode::UnaryOp(UnaryOp::Negate), Opcode::UnaryOp(UnaryOp::Negate)) => true,
            _ => false,
        }
    }
}

} // verus!
