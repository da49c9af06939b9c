use crate::constant::{binary_defined, exact_binary, is_real_arith, mixed_comparison, Constant, FuncObject};
use crate::error::HaneulError;
use crate::host::Host;
use crate::instruction::Instruction;
use crate::josa::{bind_labels, labels_of, top_args, unfilled_count, JosaFault, JosaMap};
use crate::opcode::Opcode;
use std::rc::Rc;
use vstd::prelude::*;

verus! {

/// The context of one running function: its code, constants and captured
/// values, and where its local slots begin on the operand stack.
pub struct StackFrame {
    pub code: Rc<Vec<Instruction>>,
    pub const_table: Rc<Vec<Constant>>,
    pub free_vars: Rc<Vec<Constant>>,
    pub slot_start: usize,
}

/// The machine: one operand stack shared by all frames, and the globals
/// with their names.
pub struct Machine {
    pub operand_stack: Vec<Constant>,
    pub global_vars: Vec<Option<Constant>>,
    pub global_var_names: Vec<String>,
}

/// Whether `top` is `f` with `v` appended to its captured values, `f` being
/// a bytecode function.
pub open spec fn captures(f: Constant, v: Constant, top: Constant) -> bool {
    match (f, top) {
        (
            Constant::Function {
                josa_map: m1,
                func_object: FuncObject::CodeObject { code: c1, const_table: t1, free_vars: v1 },
            },
            Constant::Function {
                josa_map: m2,
                func_object: FuncObject::CodeObject { code: c2, const_table: t2, free_vars: v2 },
            },
        ) => m1 == m2 && c1 == c2 && t1 == t2 && v2@ == v1@.push(v),
        _ => false,
    }
}

/// Whether a value is a bytecode function, which can capture values.
pub open spec fn is_closure(f: Constant) -> bool {
    f matches Constant::Function { func_object: FuncObject::CodeObject { .. }, .. }
}

fn copy_values(v: &Vec<Constant>) -> (r: Vec<Constant>)
    ensures
        r@ == v@,
{
    let mut r: Vec<Constant> = Vec::new();
    let mut i: usize = 0;
    while i < v.len()
        invariant
            i <= v@.len(),
            r@ == v@.subrange(0, i as int),
        decreases v@.len() - i,
    {
        r.push(v[i].clone());
        i = i + 1;
    }
    proof {
        assert(v@.subrange(0, v@.len() as int) == v@);
    }
    r
}

/// `f` with `v` appended to its captured values.
fn capture(f: Constant, v: Constant) -> (r: Result<Constant, HaneulError>)
    ensures
        is_closure(f) ==> (r matches Ok(top) && captures(f, v, top)),
        !is_closure(f) ==> r == Err::<Constant, HaneulError>(HaneulError::MalformedCode),
{
    match f {
        Constant::Function { josa_map, func_object: FuncObject::CodeObject { code, const_table, free_vars } } => {
            let mut vars = copy_values(&free_vars);
            vars.push(v);
            Ok(
                Constant::Function {
                    josa_map,
                    func_object: FuncObject::CodeObject { code, const_table, free_vars: Rc::new(vars) },
                },
            )
        },
        _ => Err(HaneulError::MalformedCode),
    }
}

impl Machine {
    pub open spec fn wf(self) -> bool {
        self.global_vars@.len() == self.global_var_names@.len()
    }

    /// A machine with an empty stack, whose globals are the given values,
    /// padded with empty slots, or cut, to one per name.
    pub fn new(global_vars: Vec<Option<Constant>>, global_var_names: Vec<String>) -> (r: Machine)
        ensures
            r.wf(),
            r.operand_stack@.len() == 0,
            r.global_var_names@ == global_var_names@,
            forall|i: int|
                0 <= i < global_var_names@.len() ==> r.global_vars@[i] == (if i < global_vars@.len() {
                    global_vars@[i]
                } else {
                    None
                }),
    {
        let mut vars = global_vars;
        let n = global_var_names.len();
        if vars.len() > n {
            vars.truncate(n);
        }
        while vars.len() < n
            invariant
                vars@.len() <= n,
                vars@.len() < n ==> vars@.len() >= global_vars@.len(),
                forall|i: int| 0 <= i < vars@.len() ==> vars@[i] == (if i < global_vars@.len() {
                    global_vars@[i]
                } else {
                    None
                }),
            decreases n - vars@.len(),
        {
            vars.push(None);
        }
        Machine { operand_stack: Vec::new(), global_vars: vars, global_var_names }
    }

    fn pop(&mut self) -> (r: Option<Constant>)
        ensures
            final(self).global_vars == old(self).global_vars,
            final(self).global_var_names == old(self).global_var_names,
            old(self).operand_stack@.len() == 0 ==> r is None && final(self).operand_stack@ == old(
                self,
            ).operand_stack@,
            old(self).operand_stack@.len() > 0 ==> r == Some(old(self).operand_stack@.last())
                && final(self).operand_stack@ == old(self).operand_stack@.drop_last(),
    {
        self.operand_stack.pop()
    }

    /// Runs one instruction that neither jumps nor calls.
    fn step<H: Host>(&mut self, frame: &StackFrame, op: &Opcode, host: &mut H) -> (r: Result<(), HaneulError>)
        requires
            old(self).wf(),
            old(self).operand_stack@.len() >= frame.slot_start,
            !(op is Call || op is Jmp || op is PopJmpIfFalse),
        ensures
            final(self).wf(),
            final(self).global_var_names == old(self).global_var_names,
            r is Ok ==> final(self).operand_stack@.len() == old(self).operand_stack@.len() + stack_effect(*op),
            r is Ok ==> (op is StoreGlobal || final(self).global_vars == old(self).global_vars),
            r is Ok ==> old(self).operand_stack@.len() >= frame.slot_start + stack_consumed(*op)
                && final(self).operand_stack@.subrange(0, old(self).operand_stack@.len() - stack_consumed(*op))
                == old(self).operand_stack@.subrange(0, old(self).operand_stack@.len() - stack_consumed(*op)),
            simple_step(*frame, *op, old(self).operand_stack@, old(self).global_vars@, old(self).global_var_names@, r, final(self).operand_stack@, final(self).global_vars@),
    {
        let ghost s0 = self.operand_stack@;
        let n = self.operand_stack.len();
        match op {
            Opcode::Push(c) => {
                let c = *c as usize;
                if c >= frame.const_table.len() {
                    return Err(HaneulError::MalformedCode);
                }
                self.operand_stack.push(frame.const_table[c].clone());
                assert(self.operand_stack@.subrange(0, n as int) =~= s0.subrange(0, n as int));
                Ok(())
            },
            Opcode::Pop => {
                if n <= frame.slot_start {
                    return Err(HaneulError::MalformedCode);
                }
                self.pop();
                assert(self.operand_stack@.subrange(0, n - 1) =~= s0.subrange(0, n - 1));
                Ok(())
            },
            Opcode::Load(slot) => {
                if frame.slot_start >= n || (*slot as usize) >= n - frame.slot_start {
                    return Err(HaneulError::MalformedCode);
                }
                let v = self.operand_stack[frame.slot_start + *slot as usize].clone();
                self.operand_stack.push(v);
                assert(self.operand_stack@.subrange(0, n as int) =~= s0.subrange(0, n as int));
                Ok(())
            },
            Opcode::LoadDeref(f) => {
                let f = *f as usize;
                if f >= frame.free_vars.len() {
                    return Err(HaneulError::MalformedCode);
                }
                self.operand_stack.push(frame.free_vars[f].clone());
                assert(self.operand_stack@.subrange(0, n as int) =~= s0.subrange(0, n as int));
                Ok(())
            },
            Opcode::LoadGlobal(g) => {
                let g = *g as usize;
                if g >= self.global_vars.len() {
                    return Err(HaneulError::MalformedCode);
                }
                match &self.global_vars[g] {
                    Some(v) => {
                        let v = v.clone();
                        self.operand_stack.push(v);
                        assert(self.operand_stack@.subrange(0, n as int) =~= s0.subrange(0, n as int));
                        Ok(())
                    },
                    None => Err(HaneulError::UnboundVariable { var_name: self.global_var_names[g].clone() }),
                }
            },
            Opcode::StoreGlobal(g) => {
                let g = *g as usize;
                if g >= self.global_vars.len() || n <= frame.slot_start {
                    return Err(HaneulError::MalformedCode);
                }
                let v = self.pop();
                self.global_vars.set(g, v);
                assert(self.operand_stack@.subrange(0, n - 1) =~= s0.subrange(0, n - 1));
                Ok(())
            },
            Opcode::FreeVarLocal(slot) => {
                if n == 0 || frame.slot_start >= n || (*slot as usize) >= n - frame.slot_start {
                    return Err(HaneulError::MalformedCode);
                }
                let v = self.operand_stack[frame.slot_start + *slot as usize].clone();
                let r = self.capture_into_top(v);
                assert(r is Ok ==> self.operand_stack@.subrange(0, n - 1) =~= s0.subrange(0, n - 1));
                r
            },
            Opcode::FreeVarFree(f) => {
                let f = *f as usize;
                if n <= frame.slot_start || f >= frame.free_vars.len() {
                    return Err(HaneulError::MalformedCode);
                }
                let v = frame.free_vars[f].clone();
                let r = self.capture_into_top(v);
                assert(r is Ok ==> self.operand_stack@.subrange(0, n - 1) =~= s0.subrange(0, n - 1));
                r
            },
            Opcode::UnaryOp(op) => {
                if n <= frame.slot_start {
                    return Err(HaneulError::MalformedCode);
                }
                match self.pop() {
                    Some(value) => match value.unary_op(*op) {
                        Some(result) => {
                            self.operand_stack.push(result);
                            assert(self.operand_stack@.subrange(0, n - 1) =~= s0.subrange(0, n - 1));
                            Ok(())
                        },
                        None => Err(HaneulError::InvalidUnaryOp { value, op: *op }),
                    },
                    None => Err(HaneulError::MalformedCode),
                }
            },
            Opcode::BinaryOp(op) => {
                if n < 2 || n - 2 < frame.slot_start {
                    return Err(HaneulError::MalformedCode);
                }
                let rhs = self.pop();
                let lhs = self.pop();
                match (lhs, rhs) {
                    (Some(lhs), Some(rhs)) => match lhs.binary_op(*op, &rhs, host) {
                        Some(result) => {
                            self.operand_stack.push(result);
                            assert(self.operand_stack@.drop_last() =~= s0.subrange(0, n - 2));
                            assert(self.operand_stack@.subrange(0, n - 2) =~= s0.subrange(0, n - 2));
                            Ok(())
                        },
                        None => Err(HaneulError::InvalidBinaryOp { lhs, rhs, op: *op }),
                    },
                    _ => Err(HaneulError::MalformedCode),
                }
            },
            _ => Err(HaneulError::MalformedCode),
        }
    }

    /// Runs a frame to its end: returns `Ok` when the instruction pointer
    /// passes the last instruction, or the first error with the line number
    /// of the instruction that raised it; an error raised in a called
    /// function keeps that function's line number. What happens on the way
    /// is `frame_result`: every instruction, call and failure, with only the
    /// values that the host computes left open.
    ///
    /// A frame never takes values below its start: a successful run leaves
    /// the stack below `slot_start` as it found it, and when the frame's
    /// code is balanced it leaves the whole stack as it found it. A run that executes more than `STEP_BUDGET`
    /// instructions stops with `StepLimitExceeded`.
    pub fn run<H: Host>(&mut self, host: &mut H, frame: &StackFrame) -> (r: Result<(), (u32, HaneulError)>)
        requires
            old(self).wf(),
            old(self).operand_stack@.len() >= frame.slot_start,
        ensures
            final(self).wf(),
            final(self).global_var_names == old(self).global_var_names,
            r is Ok && balanced(frame.code@) ==> final(self).operand_stack@ == old(self).operand_stack@,
            r is Ok ==> final(self).operand_stack@.len() >= frame.slot_start && final(self).operand_stack@.subrange(
                0,
                frame.slot_start as int,
            ) == old(self).operand_stack@.subrange(0, frame.slot_start as int),
            exists|d: nat, u: nat|
                #[trigger] frame_result(
                    d,
                    *frame,
                    old(self).global_var_names@,
                    STEP_BUDGET as nat,
                    old(self).operand_stack@,
                    old(self).global_vars@,
                    r,
                    final(self).operand_stack@,
                    final(self).global_vars@,
                    u,
                ),
    {
        let rf = self.run_frame(host, frame, STEP_BUDGET);
        let r = match rf {
            Ok(_) => Ok(()),
            Err(e) => Err(e),
        };
        assert(r == outcome(rf));
        r
    }

    /// Runs a frame within a budget of instructions, and returns what is
    /// left of the budget.
    fn run_frame<H: Host>(&mut self, host: &mut H, frame: &StackFrame, budget: u64) -> (r: Result<u64, (u32, HaneulError)>)
        requires
            old(self).wf(),
            old(self).operand_stack@.len() >= frame.slot_start,
        ensures
            final(self).wf(),
            final(self).global_var_names == old(self).global_var_names,
            r matches Ok(left) ==> left <= budget,
            r is Ok && balanced(frame.code@) ==> final(self).operand_stack@.len() == old(self).operand_stack@.len(),
            r is Ok ==> final(self).operand_stack@.len() >= frame.slot_start && final(self).operand_stack@.subrange(
                0,
                frame.slot_start as int,
            ) == old(self).operand_stack@.subrange(0, frame.slot_start as int),
            r is Ok && balanced(frame.code@) ==> final(self).operand_stack@ == old(self).operand_stack@,
            exists|d: nat, u: nat|
                #[trigger] frame_result(
                    d,
                    *frame,
                    old(self).global_var_names@,
                    budget as nat,
                    old(self).operand_stack@,
                    old(self).global_vars@,
                    outcome(r),
                    final(self).operand_stack@,
                    final(self).global_vars@,
                    u,
                ) && (r matches Ok(left) ==> u == budget - left),
        decreases budget, 1int,
    {
        let ghost start = self.operand_stack@.len();
        let ghost code = frame.code@;
        let ghost names = self.global_var_names@;
        let ghost h: Seq<int> = if balanced(code) {
            choose|h: Seq<int>| heights_fit(code, h)
        } else {
            Seq::empty()
        };
        let len = frame.code.len();
        let mut ip: usize = 0;
        let mut left = budget;
        let ghost mut dep: nat = 0;
        let ghost mut t: Seq<RunState> = seq![
            RunState { ip: 0, stack: self.operand_stack@, globals: self.global_vars@, used: 0 },
        ];
        loop
            invariant
                self.wf(),
                self.global_var_names == old(self).global_var_names,
                names == old(self).global_var_names@,
                code == frame.code@,
                start == old(self).operand_stack@.len(),
                len == code.len(),
                ip <= len,
                left <= budget,
                balanced(code) ==> heights_fit(code, h),
                balanced(code) ==> self.operand_stack@.len() == start + h[ip as int],
                balanced(code) ==> self.operand_stack@.subrange(0, start as int) == old(self).operand_stack@,
                self.operand_stack@.len() >= frame.slot_start,
                self.operand_stack@.subrange(0, frame.slot_start as int) == old(self).operand_stack@.subrange(
                    0,
                    frame.slot_start as int,
                ),
                t.len() >= 1,
                t[0] == (RunState { ip: 0, stack: old(self).operand_stack@, globals: old(self).global_vars@, used: 0 }),
                forall|i: int| 0 <= i < t.len() - 1 ==> step_to(dep, *frame, names, budget as nat, #[trigger] t[i], t[i + 1]),
                t.last() == (RunState {
                    ip: ip as int,
                    stack: self.operand_stack@,
                    globals: self.global_vars@,
                    used: (budget - left) as nat,
                }),
            decreases left,
        {
            let ghost a = t.last();
            if ip >= len {
                proof {
                    assert(trace_ok(dep, *frame, names, budget as nat, old(self).operand_stack@, old(self).global_vars@, Ok(()), self.operand_stack@, self.global_vars@, (budget - left) as nat, t));
                    assert(run_by(t));
                    assert(frame_result(dep, *frame, names, budget as nat, old(self).operand_stack@, old(self).global_vars@, Ok(()), self.operand_stack@, self.global_vars@, (budget - left) as nat));
                }
                return Ok(left);
            }
            let inst = &frame.code[ip];
            let line = inst.line_number;
            if left == 0 {
                let r = Err((line, HaneulError::StepLimitExceeded));
                proof {
                    assert(step_fails(dep, *frame, names, budget as nat, a, outcome(r)));
                    assert(trace_ok(dep, *frame, names, budget as nat, old(self).operand_stack@, old(self).global_vars@, outcome(r), self.operand_stack@, self.global_vars@, 0, t));
                    assert(run_by(t));
                    assert(frame_result(dep, *frame, names, budget as nat, old(self).operand_stack@, old(self).global_vars@, outcome(r), self.operand_stack@, self.global_vars@, 0));
                }
                return r;
            }
            left = left - 1;
            match &inst.opcode {
                Opcode::Jmp(t_) => {
                    ip = if (*t_ as usize) < len { *t_ as usize } else { len };
                },
                Opcode::PopJmpIfFalse(t_) => {
                    match self.pop_jump_if_false(*t_, ip, len, frame.slot_start) {
                        Ok(next) => {
                            ip = next;
                        },
                        Err(e) => {
                            let r = Err((line, e));
                            proof {
                                assert(step_fails(dep, *frame, names, budget as nat, a, outcome(r)));
                    assert(trace_ok(dep, *frame, names, budget as nat, old(self).operand_stack@, old(self).global_vars@, outcome(r), self.operand_stack@, self.global_vars@, 0, t));
                                assert(run_by(t));
                                assert(frame_result(dep, *frame, names, budget as nat, old(self).operand_stack@, old(self).global_vars@, outcome(r), self.operand_stack@, self.global_vars@, 0));
                            }
                            return r;
                        },
                    }
                },
                Opcode::Call(given) => {
                    match self.call(host, given, line, frame.slot_start, left) {
                        Ok(rest) => {
                            proof {
                                let (dc, u) = choose|dc: nat, u: nat| u == left - rest && #[trigger] call_result(dc, names, left as nat, frame.slot_start as int, labels_of(given@), a.stack, a.globals, self.operand_stack@, self.global_vars@, u);
                                let nd: nat = if dc > dep { dc } else { dep };
                                lemma_steps_deeper(dep, nd, *frame, names, budget as nat, t);
                                lemma_call_result_deeper(dc, nd, names, left as nat, frame.slot_start as int, labels_of(given@), a.stack, a.globals, self.operand_stack@, self.global_vars@, u);
                                dep = nd;
                            }
                            left = rest;
                        },
                        Err(e) => {
                            proof {
                                let dc = choose|dc: nat| #[trigger] call_error(dc, names, left as nat, frame.slot_start as int, labels_of(given@), line, a.stack, a.globals, Err(e));
                                let nd: nat = if dc > dep { dc } else { dep };
                                lemma_steps_deeper(dep, nd, *frame, names, budget as nat, t);
                                lemma_call_error_deeper(dc, nd, names, left as nat, frame.slot_start as int, labels_of(given@), line, a.stack, a.globals, Err(e));
                                assert(step_fails(nd, *frame, names, budget as nat, a, Err(e)));
                                assert(trace_ok(nd, *frame, names, budget as nat, old(self).operand_stack@, old(self).global_vars@, Err(e), self.operand_stack@, self.global_vars@, 0, t));
                                assert(run_by(t));
                                assert(frame_result(nd, *frame, names, budget as nat, old(self).operand_stack@, old(self).global_vars@, Err(e), self.operand_stack@, self.global_vars@, 0));
                            }
                            return Err(e);
                        },
                    }
                    ip = ip + 1;
                },
                op => {
                    match self.step(frame, op, host) {
                        Ok(()) => {},
                        Err(e) => {
                            let r = Err((line, e));
                            proof {
                                assert(simple_step(*frame, *op, a.stack, a.globals, names, Err(e), a.stack, a.globals));
                                assert(step_fails(dep, *frame, names, budget as nat, a, outcome(r)));
                    assert(trace_ok(dep, *frame, names, budget as nat, old(self).operand_stack@, old(self).global_vars@, outcome(r), self.operand_stack@, self.global_vars@, 0, t));
                                assert(run_by(t));
                                assert(frame_result(dep, *frame, names, budget as nat, old(self).operand_stack@, old(self).global_vars@, outcome(r), self.operand_stack@, self.global_vars@, 0));
                            }
                            return r;
                        },
                    }
                    ip = ip + 1;
                },
            }
            proof {
                let b = RunState { ip: ip as int, stack: self.operand_stack@, globals: self.global_vars@, used: (budget - left) as nat };
                assert(step_to(dep, *frame, names, budget as nat, a, b));
                let t0 = t;
                t = t.push(b);
                assert forall|i: int| 0 <= i < t.len() - 1 implies step_to(dep, *frame, names, budget as nat, #[trigger] t[i], t[i + 1]) by {
                    if i < t0.len() - 1 {
                        assert(t[i] == t0[i] && t[i + 1] == t0[i + 1]);
                    } else {
                        assert(t[i] == a && t[i + 1] == b);
                    }
                }
            }
        }
    }

    /// Pops a boolean and gives where the frame continues: at the jump
    /// target when it is false, at the next instruction when it is true.
    fn pop_jump_if_false(&mut self, t: u32, ip: usize, len: usize, base: usize) -> (r: Result<usize, HaneulError>)
        requires
            ip < len,
        ensures
            final(self).global_vars == old(self).global_vars,
            final(self).global_var_names == old(self).global_var_names,
            old(self).operand_stack@.len() <= base ==> r == Err::<usize, HaneulError>(HaneulError::MalformedCode),
            old(self).operand_stack@.len() > base ==> final(self).operand_stack@ == old(self).operand_stack@.drop_last()
                && r == match old(self).operand_stack@.last() {
                Constant::Boolean(true) => Ok::<usize, HaneulError>((ip + 1) as usize),
                Constant::Boolean(false) => Ok::<usize, HaneulError>(jump_target(t, len as int) as usize),
                v => Err::<usize, HaneulError>(HaneulError::ExpectedBoolean { value: v }),
            },
    {
        if self.operand_stack.len() <= base {
            return Err(HaneulError::MalformedCode);
        }
        match self.pop() {
            Some(Constant::Boolean(b)) => {
                if b {
                    Ok(ip + 1)
                } else if (t as usize) < len {
                    Ok(t as usize)
                } else {
                    Ok(len)
                }
            },
            Some(value) => Err(HaneulError::ExpectedBoolean { value }),
            None => Err(HaneulError::MalformedCode),
        }
    }

    /// Calls the function on top of the stack with the arguments below it,
    /// bound to the given labels. On success the callee and the arguments
    /// are replaced by one value: the function with the new arguments bound
    /// while slots remain unfilled, else the function's result.
    fn call<H: Host>(&mut self, host: &mut H, given: &Vec<String>, line: u32, base: usize, budget: u64) -> (r: Result<u64, (u32, HaneulError)>)
        requires
            old(self).wf(),
        ensures
            final(self).wf(),
            final(self).global_var_names == old(self).global_var_names,
            r matches Ok(left) ==> left <= budget,
            r is Ok ==> final(self).operand_stack@.len() + given@.len() == old(self).operand_stack@.len(),
            r is Ok ==> old(self).operand_stack@.len() >= base + given@.len() + 1 && final(self).operand_stack@.drop_last()
                == old(self).operand_stack@.subrange(0, old(self).operand_stack@.len() - 1 - given@.len()),
            r matches Ok(left) ==> exists|d: nat, u: nat|
                u == budget - left && #[trigger] call_result(
                    d,
                    old(self).global_var_names@,
                    budget as nat,
                    base as int,
                    labels_of(given@),
                    old(self).operand_stack@,
                    old(self).global_vars@,
                    final(self).operand_stack@,
                    final(self).global_vars@,
                    u,
                ),
            r is Err ==> exists|d: nat|
                #[trigger] call_error(
                    d,
                    old(self).global_var_names@,
                    budget as nat,
                    base as int,
                    labels_of(given@),
                    line,
                    old(self).operand_stack@,
                    old(self).global_vars@,
                    outcome(r),
                ),
        decreases budget, 2int,
    {
        let ghost names = self.global_var_names@;
        let ghost s0 = self.operand_stack@;
        let ghost g0 = self.global_vars@;
        let ghost given_v = labels_of(given@);
        if self.operand_stack.len() <= base {
            assert(call_error(0, names, budget as nat, base as int, given_v, line, s0, g0, Err((line, HaneulError::MalformedCode))));
            return Err((line, HaneulError::MalformedCode));
        }
        let callee = match self.pop() {
            Some(c) => c,
            None => {
                assert(call_error(0, names, budget as nat, base as int, given_v, line, s0, g0, Err((line, HaneulError::MalformedCode))));
                return Err((line, HaneulError::MalformedCode));
            },
        };
        match callee {
            Constant::Function { josa_map, func_object } => {
                let residual = josa_map.residual_arity();
                let g = given.len();
                if g > residual {
                    let r = Err((line, HaneulError::TooManyArgs { actual_arity: residual, given_arity: g }));
                    assert(call_error(0, names, budget as nat, base as int, given_v, line, s0, g0, outcome(r)));
                    return r;
                }
                if g > self.operand_stack.len() - base {
                    assert(call_error(0, names, budget as nat, base as int, given_v, line, s0, g0, Err((line, HaneulError::MalformedCode))));
                    return Err((line, HaneulError::MalformedCode));
                }
                let ghost bound_spec = bind_labels(josa_map.labels(), josa_map.slots(), given_v, top_args(s0.drop_last(), g as int));
                let bound = match josa_map.bind(given, &self.operand_stack) {
                    Ok(m) => m,
                    Err((JosaFault::Unbound, josa)) => {
                        let r = Err((line, HaneulError::UnboundJosa { josa }));
                        assert(call_error(0, names, budget as nat, base as int, given_v, line, s0, g0, outcome(r)));
                        return r;
                    },
                    Err((JosaFault::AlreadyApplied, josa)) => {
                        let r = Err((line, HaneulError::AlreadyAppliedJosa { josa }));
                        assert(call_error(0, names, budget as nat, base as int, given_v, line, s0, g0, outcome(r)));
                        return r;
                    },
                };
                let ghost slots = bound.slots();
                assert(given_v.len() == g);
                let keep = self.operand_stack.len() - g;
                self.operand_stack.truncate(keep);
                let ghost below = self.operand_stack@;
                assert(below =~= s0.subrange(0, s0.len() - 1 - g));
                if bound.residual_arity() > 0 {
                    self.operand_stack.push(Constant::Function { josa_map: bound, func_object });
                    assert(self.operand_stack@.drop_last() =~= below);
                    assert(call_result(0, old(self).global_var_names@, budget as nat, base as int, labels_of(given@), old(self).operand_stack@, old(self).global_vars@, self.operand_stack@, self.global_vars@, (budget - budget) as nat));
                    assert(exists|d: nat| #[trigger] call_result(d, old(self).global_var_names@, budget as nat, base as int, labels_of(given@), old(self).operand_stack@, old(self).global_vars@, self.operand_stack@, self.global_vars@, (budget - budget) as nat));
                    return Ok(budget);
                }
                proof {
                    lemma_no_unfilled(bound.slots());
                }
                let args = bound.arguments();
                assert(args@ =~= slot_values(slots));
                match func_object {
                    FuncObject::NativeFunc { id } => {
                        let result = host.call_native(id, args);
                        self.operand_stack.push(result);
                        assert(self.operand_stack@.drop_last() =~= below);
                        assert(call_result(0, names, budget as nat, base as int, given_v, s0, g0, self.operand_stack@, self.global_vars@, (budget - budget) as nat));
                        Ok(budget)
                    },
                    FuncObject::CodeObject { code, const_table, free_vars } => {
                        let ghost f = FuncObject::CodeObject { code, const_table, free_vars };
                        let slot_start = self.operand_stack.len();
                        let mut i: usize = 0;
                        while i < args.len()
                            invariant
                                self.wf(),
                                self.global_var_names == old(self).global_var_names,
                                self.global_vars@ == g0,
                                i <= args@.len(),
                                slot_start == below.len(),
                                self.operand_stack@ == below + args@.subrange(0, i as int),
                            decreases args@.len() - i,
                        {
                            self.operand_stack.push(args[i].clone());
                            i = i + 1;
                            assert(self.operand_stack@ =~= below + args@.subrange(0, i as int));
                        }
                        assert(args@.subrange(0, args@.len() as int) =~= args@);
                        let ghost start_stack = self.operand_stack@;
                        assert(start_stack == below + slot_values(slots));
                        let child = StackFrame { code, const_table, free_vars, slot_start };
                        assert(child == child_frame(f, below.len() as int));
                        let rc = self.run_frame(host, &child, budget);
                        let ghost cs = self.operand_stack@;
                        let ghost gc = self.global_vars@;
                        let left = match rc {
                            Ok(left) => left,
                            Err(e) => {
                                proof {
                                    let (dc, u) = choose|dc: nat, u: nat| frame_result(dc, child, names, budget as nat, start_stack, g0, outcome(rc), cs, gc, u);
                                    assert(frame_result(dc, child_frame(f, below.len() as int), names, budget as nat, below + slot_values(slots), g0, outcome(rc), cs, gc, u));
                                    lemma_child_ended(dc + 1, f, below, slot_values(slots), names, budget as nat, g0, line, outcome(rc), dc, false, cs, gc, u);
                                    assert(call_error(dc + 1, names, budget as nat, base as int, given_v, line, s0, g0, outcome(rc)));
                                }
                                return Err(e);
                            },
                        };
                        let ghost u = (budget - left) as nat;
                        let ghost dc = choose|dc: nat| frame_result(dc, child, names, budget as nat, start_stack, g0, Ok(()), cs, gc, u);
                        if self.operand_stack.len() <= slot_start {
                            proof {
                                assert(frame_result(dc, child_frame(f, below.len() as int), names, budget as nat, below + slot_values(slots), g0, Ok(()), cs, gc, u));
                                lemma_child_ended(dc + 1, f, below, slot_values(slots), names, budget as nat, g0, line, Err((line, HaneulError::MalformedCode)), dc, true, cs, gc, u);
                                assert(call_error(dc + 1, names, budget as nat, base as int, given_v, line, s0, g0, Err((line, HaneulError::MalformedCode))));
                            }
                            return Err((line, HaneulError::MalformedCode));
                        }
                        match self.pop() {
                            Some(result) => {
                                self.operand_stack.truncate(slot_start);
                                self.operand_stack.push(result);
                                proof {
                                    assert(start_stack.subrange(0, below.len() as int) =~= below);
                                    assert(cs.subrange(0, below.len() as int) == below);
                                }
                                assert(self.operand_stack@ =~= below.push(cs.last()));
                                assert(frame_result(dc, child_frame(f, below.len() as int), names, budget as nat, below + slot_values(slots), g0, Ok(()), cs, gc, u));
                                proof {
                                    lemma_child_returned(dc + 1, f, below, slot_values(slots), names, budget as nat, g0, self.operand_stack@, self.global_vars@, u, dc, cs);
                                }
                                assert(call_result(dc + 1, names, budget as nat, base as int, given_v, s0, g0, self.operand_stack@, self.global_vars@, (budget - left) as nat));
                                Ok(left)
                            },
                            None => Err((line, HaneulError::MalformedCode)),
                        }
                    },
                }
            },
            value => {
                let r = Err((line, HaneulError::NotCallable { value }));
                assert(call_error(0, names, budget as nat, base as int, given_v, line, s0, g0, outcome(r)));
                r
            },
        }
    }

    /// Appends `v` to the captured values of the closure on top of the stack.
    fn capture_into_top(&mut self, v: Constant) -> (r: Result<(), HaneulError>)
        requires
            old(self).operand_stack@.len() > 0,
        ensures
            final(self).global_vars == old(self).global_vars,
            final(self).global_var_names == old(self).global_var_names,
            is_closure(old(self).operand_stack@.last()) ==> r is Ok
                && final(self).operand_stack@.len() == old(self).operand_stack@.len()
                && final(self).operand_stack@.drop_last() == old(self).operand_stack@.drop_last()
                && captures(old(self).operand_stack@.last(), v, final(self).operand_stack@.last()),
            !is_closure(old(self).operand_stack@.last()) ==> r == Err::<(), HaneulError>(HaneulError::MalformedCode),
    {
        match self.pop() {
            Some(f) => match capture(f, v) {
                Ok(top) => {
                    self.operand_stack.push(top);
                    Ok(())
                },
                Err(e) => Err(e),
            },
            None => Err(HaneulError::MalformedCode),
        }
    }
}

/// How many values an instruction takes from the stack.
pub open spec fn stack_consumed(op: Opcode) -> int {
    match op {
        Opcode::Pop | Opcode::StoreGlobal(_) | Opcode::PopJmpIfFalse(_) | Opcode::UnaryOp(_) => 1,
        Opcode::FreeVarLocal(_) | Opcode::FreeVarFree(_) => 1,
        Opcode::BinaryOp(_) => 2,
        Opcode::Call(given) => given@.len() as int + 1,
        _ => 0,
    }
}

/// How many values an instruction leaves on the stack beyond what it found
/// there, when it succeeds.
pub open spec fn stack_effect(op: Opcode) -> int {
    match op {
        Opcode::Push(_) | Opcode::Load(_) | Opcode::LoadDeref(_) | Opcode::LoadGlobal(_) => 1,
        Opcode::Pop | Opcode::StoreGlobal(_) | Opcode::BinaryOp(_) | Opcode::PopJmpIfFalse(_) => -1,
        Opcode::Call(given) => -(given@.len() as int),
        Opcode::Jmp(_) | Opcode::FreeVarLocal(_) | Opcode::FreeVarFree(_) | Opcode::UnaryOp(_) => 0,
    }
}

/// What one instruction that neither jumps nor calls does: from the stack
/// `s0` and globals `g0` it reaches `s1` and `g1`, or fails with `r`.
/// The result of double arithmetic is the host's and is left open here.
pub open spec fn simple_step(
    frame: StackFrame,
    op: Opcode,
    s0: Seq<Constant>,
    g0: Seq<Option<Constant>>,
    names: Seq<String>,
    r: Result<(), HaneulError>,
    s1: Seq<Constant>,
    g1: Seq<Option<Constant>>,
) -> bool {
    let n = s0.len();
    let base = frame.slot_start as int;
    match op {
        Opcode::Push(c) => if c < frame.const_table@.len() {
            r is Ok && s1 == s0.push(frame.const_table@[c as int])
        } else {
            r == Err::<(), HaneulError>(HaneulError::MalformedCode)
        },
        Opcode::Pop => if n > base {
            r is Ok && s1 == s0.drop_last()
        } else {
            r == Err::<(), HaneulError>(HaneulError::MalformedCode)
        },
        Opcode::Load(i) => if base + i < n {
            r is Ok && s1 == s0.push(s0[base + i])
        } else {
            r == Err::<(), HaneulError>(HaneulError::MalformedCode)
        },
        Opcode::LoadDeref(i) => if i < frame.free_vars@.len() {
            r is Ok && s1 == s0.push(frame.free_vars@[i as int])
        } else {
            r == Err::<(), HaneulError>(HaneulError::MalformedCode)
        },
        Opcode::LoadGlobal(g) => if g < g0.len() {
            match g0[g as int] {
                Some(v) => r is Ok && s1 == s0.push(v),
                None => r matches Err(HaneulError::UnboundVariable { var_name }) && var_name@ == names[g as int]@,
            }
        } else {
            r == Err::<(), HaneulError>(HaneulError::MalformedCode)
        },
        Opcode::StoreGlobal(g) => if g < g0.len() && n > base {
            r is Ok && s1 == s0.drop_last() && g1 == g0.update(g as int, Some(s0.last()))
        } else {
            r == Err::<(), HaneulError>(HaneulError::MalformedCode)
        },
        Opcode::FreeVarLocal(i) => if n > 0 && base + i < n && is_closure(s0.last()) {
            r is Ok && s1.len() == n && s1.drop_last() == s0.drop_last() && captures(s0.last(), s0[base + i], s1.last())
        } else {
            r == Err::<(), HaneulError>(HaneulError::MalformedCode)
        },
        Opcode::FreeVarFree(i) => if n > base && i < frame.free_vars@.len() && is_closure(s0.last()) {
            r is Ok && s1.len() == n && s1.drop_last() == s0.drop_last() && captures(s0.last(), frame.free_vars@[i as int], s1.last())
        } else {
            r == Err::<(), HaneulError>(HaneulError::MalformedCode)
        },
        Opcode::UnaryOp(o) => if n > base {
            match s0.last().spec_unary(o) {
                Some(v) => r is Ok && s1 == s0.drop_last().push(v),
                None => r == Err::<(), HaneulError>(HaneulError::InvalidUnaryOp { value: s0.last(), op: o }),
            }
        } else {
            r == Err::<(), HaneulError>(HaneulError::MalformedCode)
        },
        Opcode::BinaryOp(o) => if n >= base + 2 {
            let lhs = s0[n - 2];
            let rhs = s0[n - 1];
            &&& (r is Ok ==> binary_defined(o, lhs, rhs) && s1.len() == n - 1 && s1.drop_last() == s0.subrange(0, n - 2))
            &&& (binary_defined(o, lhs, rhs) && !mixed_comparison(o, lhs, rhs) ==> r is Ok)
            &&& (r is Err ==> r == Err::<(), HaneulError>(HaneulError::InvalidBinaryOp { lhs, rhs, op: o }))
            &&& (r is Ok && exact_binary(o, lhs, rhs) is Some ==> s1.last() == exact_binary(o, lhs, rhs)->0)
            &&& (r is Ok && is_real_arith(o) && (lhs is Real || rhs is Real) ==> s1.last() is Real)
            &&& (r is Ok && o is Cmp ==> s1.last() is Boolean)
        } else {
            r == Err::<(), HaneulError>(HaneulError::MalformedCode)
        },
        _ => true,
    }
}

/// A point in the run of a frame: the next instruction, the stack, the
/// globals, and how many instructions have run so far, those of called
/// functions included.
pub struct RunState {
    pub ip: int,
    pub stack: Seq<Constant>,
    pub globals: Seq<Option<Constant>>,
    pub used: nat,
}

/// The frame in which a bytecode function runs, its locals starting at `start`.
pub open spec fn child_frame(f: FuncObject, start: int) -> StackFrame {
    match f {
        FuncObject::CodeObject { code, const_table, free_vars } => StackFrame {
            code,
            const_table,
            free_vars,
            slot_start: start as usize,
        },
        FuncObject::NativeFunc { .. } => StackFrame {
            code: arbitrary(),
            const_table: arbitrary(),
            free_vars: arbitrary(),
            slot_start: start as usize,
        },
    }
}

/// The values of filled slots, in order.
pub open spec fn slot_values(slots: Seq<Option<Constant>>) -> Seq<Constant> {
    Seq::new(slots.len(), |i: int| slots[i]->0)
}

/// Names a run of a frame.
pub open spec fn run_by(t: Seq<RunState>) -> bool {
    true
}

/// Names a depth and final stack at which a called function returned.
pub open spec fn returned_with(d: nat, cs: Seq<Constant>) -> bool {
    true
}

/// Names a depth and final state at which a called function ended.
pub open spec fn ended_with(d: nat, cs: Seq<Constant>, g: Seq<Option<Constant>>, u: nat) -> bool {
    true
}

/// A bytecode function, run in a frame whose locals start above `below`
/// and hold `args`, returns with some value on top, at most `d - 1` calls
/// deep; the stack is then cut back to `below` with that value pushed.
pub open spec fn child_returns(
    d: nat,
    f: FuncObject,
    below: Seq<Constant>,
    args: Seq<Constant>,
    names: Seq<String>,
    budget: nat,
    g0: Seq<Option<Constant>>,
    s1: Seq<Constant>,
    g1: Seq<Option<Constant>>,
    used: nat,
) -> bool
    decreases d, 0int,
{
    exists|d2: nat, cs: Seq<Constant>|
        #[trigger] returned_with(d2, cs) && d2 < d && frame_result(d2, child_frame(f, below.len() as int), names, budget, below + args, g0, Ok(()), cs, g1, used)
            && cs.len() > below.len() && cs.subrange(0, below.len() as int) == below && s1 == below.push(cs.last())
}

/// The same function fails with `r`, or returns with nothing above its
/// locals, which is malformed code at the call's `line`.
pub open spec fn child_fails(
    d: nat,
    f: FuncObject,
    below: Seq<Constant>,
    args: Seq<Constant>,
    names: Seq<String>,
    budget: nat,
    g0: Seq<Option<Constant>>,
    line: u32,
    r: Result<(), (u32, HaneulError)>,
) -> bool
    decreases d, 0int,
{
    ||| (r is Err && exists|d2: nat, cs: Seq<Constant>, g2: Seq<Option<Constant>>, u: nat|
        #[trigger] ended_with(d2, cs, g2, u) && d2 < d && frame_result(d2, child_frame(f, below.len() as int), names, budget, below + args, g0, r, cs, g2, u))
    ||| (r == Err::<(), (u32, HaneulError)>((line, HaneulError::MalformedCode)) && exists|
        d2: nat,
        cs: Seq<Constant>,
        g2: Seq<Option<Constant>>,
        u: nat,
    |
        #[trigger] ended_with(d2, cs, g2, u) && d2 < d && frame_result(d2, child_frame(f, below.len() as int), names, budget, below + args, g0, Ok(()), cs, g2, u)
            && cs.len() <= below.len())
}

/// A call that succeeds: from the stack `s0`, with the callee on top and
/// the arguments below it, and the globals `g0`, it reaches `s1` and `g1`
/// after `used` instructions of the called function, within `budget`.
/// While slots remain unfilled the callee and arguments are replaced by the
/// function with the arguments bound. Otherwise a native function leaves
/// one value (the host's), and a bytecode function runs in a frame whose
/// locals are the arguments in slot order; it leaves the stack below its
/// locals as it found it, and the stack is then cut back to where the
/// locals began, with the function's top value pushed.
pub open spec fn call_result(
    d: nat,
    names: Seq<String>,
    budget: nat,
    base: int,
    given: Seq<Seq<char>>,
    s0: Seq<Constant>,
    g0: Seq<Option<Constant>>,
    s1: Seq<Constant>,
    g1: Seq<Option<Constant>>,
    used: nat,
) -> bool
    decreases d, 1int,
{
    let n = s0.len();
    let g = given.len();
    n > base && match s0.last() {
        Constant::Function { josa_map: m, func_object: f } => {
            &&& g <= m.residual()
            &&& g <= n - 1 - base
            &&& match bind_labels(m.labels(), m.slots(), given, top_args(s0.drop_last(), g as int)) {
                Ok(slots) => {
                    let below = s0.subrange(0, n - 1 - g);
                    if unfilled_count(slots) > 0 {
                        &&& used == 0
                        &&& g1 == g0
                        &&& s1.len() == n - g
                        &&& s1.drop_last() == below
                        &&& s1.last() matches Constant::Function { josa_map: m2, func_object: f2 }
                        &&& m2.labels() == m.labels()
                        &&& m2.slots() == slots
                        &&& f2 == f
                    } else if f is NativeFunc {
                        &&& used == 0
                        &&& g1 == g0
                        &&& s1.len() == n - g
                        &&& s1.drop_last() == below
                    } else {
                        child_returns(d, f, below, slot_values(slots), names, budget, g0, s1, g1, used)
                    }
                },
                Err(_) => false,
            }
        },
        _ => false,
    }
}

/// A call that fails with `r`: an error of the call itself, with `line`, or
/// the error of the bytecode function it runs, or a function that left
/// nothing above its locals.
pub open spec fn call_error(
    d: nat,
    names: Seq<String>,
    budget: nat,
    base: int,
    given: Seq<Seq<char>>,
    line: u32,
    s0: Seq<Constant>,
    g0: Seq<Option<Constant>>,
    r: Result<(), (u32, HaneulError)>,
) -> bool
    decreases d, 1int,
{
    let n = s0.len();
    let g = given.len();
    if n <= base {
        r == Err::<(), (u32, HaneulError)>((line, HaneulError::MalformedCode))
    } else {
        match s0.last() {
            Constant::Function { josa_map: m, func_object: f } => if g > m.residual() {
                r == Err::<(), (u32, HaneulError)>(
                    (line, HaneulError::TooManyArgs { actual_arity: m.residual() as usize, given_arity: g as usize }),
                )
            } else if g > n - 1 - base {
                r == Err::<(), (u32, HaneulError)>((line, HaneulError::MalformedCode))
            } else {
                match bind_labels(m.labels(), m.slots(), given, top_args(s0.drop_last(), g as int)) {
                    Err((JosaFault::Unbound, j)) => r matches Err((l, HaneulError::UnboundJosa { josa })) && l == line
                        && josa@ == j,
                    Err((JosaFault::AlreadyApplied, j)) => r matches Err((l, HaneulError::AlreadyAppliedJosa { josa }))
                        && l == line && josa@ == j,
                    Ok(slots) => {
                        let below = s0.subrange(0, n - 1 - g);
                        &&& unfilled_count(slots) == 0
                        &&& f is CodeObject
                        &&& child_fails(d, f, below, slot_values(slots), names, budget, g0, line, r)
                    },
                }
            },
            v => r == Err::<(), (u32, HaneulError)>((line, HaneulError::NotCallable { value: v })),
        }
    }
}

/// One instruction of a frame that succeeds, from state `a` to state `b`.
pub open spec fn step_to(d: nat, frame: StackFrame, names: Seq<String>, budget: nat, a: RunState, b: RunState) -> bool
    decreases d, 2int,
{
    let code = frame.code@;
    let len = code.len() as int;
    &&& 0 <= a.ip < len
    &&& a.used < budget
    &&& match code[a.ip].opcode {
        Opcode::Jmp(t) => b == RunState {
            ip: jump_target(t, len),
            stack: a.stack,
            globals: a.globals,
            used: a.used + 1,
        },
        Opcode::PopJmpIfFalse(t) => {
            &&& a.stack.len() > frame.slot_start
            &&& b.stack == a.stack.drop_last()
            &&& b.globals == a.globals
            &&& b.used == a.used + 1
            &&& (a.stack.last() == Constant::Boolean(true) && b.ip == a.ip + 1) || (a.stack.last()
                == Constant::Boolean(false) && b.ip == jump_target(t, len))
        },
        Opcode::Call(given) => {
            &&& b.ip == a.ip + 1
            &&& b.used >= a.used + 1
            &&& call_result(
                d,
                names,
                (budget - a.used - 1) as nat,
                frame.slot_start as int,
                labels_of(given@),
                a.stack,
                a.globals,
                b.stack,
                b.globals,
                (b.used - a.used - 1) as nat,
            )
        },
        op => {
            &&& b.ip == a.ip + 1
            &&& b.used == a.used + 1
            &&& (op is StoreGlobal || b.globals == a.globals)
            &&& simple_step(frame, op, a.stack, a.globals, names, Ok(()), b.stack, b.globals)
        },
    }
}

/// The instruction at state `a` fails with `r`, carrying its line number
/// unless the error comes from a called function; or the budget is spent.
pub open spec fn step_fails(
    d: nat,
    frame: StackFrame,
    names: Seq<String>,
    budget: nat,
    a: RunState,
    r: Result<(), (u32, HaneulError)>,
) -> bool
    decreases d, 2int,
{
    let code = frame.code@;
    let len = code.len() as int;
    0 <= a.ip < len && {
        let line = code[a.ip].line_number;
        if a.used >= budget {
            r == Err::<(), (u32, HaneulError)>((line, HaneulError::StepLimitExceeded))
        } else {
            match code[a.ip].opcode {
                Opcode::Jmp(_) => false,
                Opcode::PopJmpIfFalse(_) => if a.stack.len() <= frame.slot_start {
                    r == Err::<(), (u32, HaneulError)>((line, HaneulError::MalformedCode))
                } else {
                    !(a.stack.last() is Boolean) && r == Err::<(), (u32, HaneulError)>(
                        (line, HaneulError::ExpectedBoolean { value: a.stack.last() }),
                    )
                },
                Opcode::Call(given) => call_error(
                    d,
                    names,
                    (budget - a.used - 1) as nat,
                    frame.slot_start as int,
                    labels_of(given@),
                    line,
                    a.stack,
                    a.globals,
                    r,
                ),
                op => exists|e: HaneulError|
                    r == Err::<(), (u32, HaneulError)>((line, e)) && #[trigger] simple_step(
                        frame,
                        op,
                        a.stack,
                        a.globals,
                        names,
                        Err(e),
                        a.stack,
                        a.globals,
                    ),
            }
        }
    }
}

/// Whether `t` is a run of the frame from the stack `s0` and globals `g0`
/// that ends with `r`: each state follows from the one before by one
/// instruction, and the last one is past the code (then `s1`, `g1` and
/// `used` are what it holds) or at an instruction that fails with `r`.
pub open spec fn trace_ok(
    d: nat,
    frame: StackFrame,
    names: Seq<String>,
    budget: nat,
    s0: Seq<Constant>,
    g0: Seq<Option<Constant>>,
    r: Result<(), (u32, HaneulError)>,
    s1: Seq<Constant>,
    g1: Seq<Option<Constant>>,
    used: nat,
    t: Seq<RunState>,
) -> bool
    decreases d, 3int,
{
    &&& t.len() >= 1
    &&& t[0] == RunState { ip: 0, stack: s0, globals: g0, used: 0 }
    &&& forall|i: int| 0 <= i < t.len() - 1 ==> step_to(d, frame, names, budget, #[trigger] t[i], t[i + 1])
    &&& match r {
        Ok(_) => {
            &&& t.last().ip >= frame.code@.len()
            &&& s1 == t.last().stack
            &&& g1 == t.last().globals
            &&& used == t.last().used
        },
        Err(_) => step_fails(d, frame, names, budget, t.last(), r),
    }
}

/// What running a frame does: some run of it, with calls nested at most
/// `d` deep, goes from `s0` and `g0` to the result `r`, leaving `s1` and
/// `g1` when it succeeds after `used` instructions. Values that the host
/// computes are left open; everything else is fixed.
pub open spec fn frame_result(
    d: nat,
    frame: StackFrame,
    names: Seq<String>,
    budget: nat,
    s0: Seq<Constant>,
    g0: Seq<Option<Constant>>,
    r: Result<(), (u32, HaneulError)>,
    s1: Seq<Constant>,
    g1: Seq<Option<Constant>>,
    used: nat,
) -> bool
    decreases d, 4int,
{
    exists|t: Seq<RunState>| #[trigger] run_by(t) && trace_ok(d, frame, names, budget, s0, g0, r, s1, g1, used, t)
}

/// The most instructions one run executes, counting those of the functions
/// it calls: far more than any program can run in practice, so that every
/// run ends.
pub const STEP_BUDGET: u64 = 0xffff_ffff_ffff_ffff;

/// Where a jump to `t` continues: `t`, or the end of the code when `t` is
/// past it.
pub open spec fn jump_target(t: u32, len: int) -> int {
    if t < len {
        t as int
    } else {
        len
    }
}

/// Whether `h` gives, for each offset of the code and for its end, the
/// stack height there relative to the frame's start, consistently with
/// what each instruction does: it starts and ends at 0, each instruction
/// changes it by its stack effect, and a jump lands where the height is
/// the one it leaves. No instruction takes more values than the frame has
/// pushed, so the code never reaches below the frame's start.
pub open spec fn heights_fit(code: Seq<Instruction>, h: Seq<int>) -> bool {
    &&& h.len() == code.len() + 1
    &&& h[0] == 0
    &&& h[code.len() as int] == 0
    &&& forall|i: int| 0 <= i < code.len() ==> h[i] >= stack_consumed(#[trigger] code[i].opcode)
    &&& forall|i: int|
        0 <= i < code.len() ==> match #[trigger] code[i].opcode {
            Opcode::Jmp(t) => h[jump_target(t, code.len() as int)] == h[i],
            Opcode::PopJmpIfFalse(t) => h[jump_target(t, code.len() as int)] == h[i] - 1 && h[i + 1] == h[i] - 1,
            op => h[i + 1] == h[i] + stack_effect(op),
        }
}

/// Whether a frame's code leaves the stack as it found it along every path:
/// some assignment of stack heights fits it.
pub open spec fn balanced(code: Seq<Instruction>) -> bool {
    exists|h: Seq<int>| heights_fit(code, h)
}

proof fn lemma_no_unfilled(s: Seq<Option<Constant>>)
    requires
        crate::josa::unfilled_count(s) == 0,
    ensures
        forall|i: int| 0 <= i < s.len() ==> s[i] is Some,
    decreases s.len(),
{
    if s.len() > 0 {
        lemma_no_unfilled(s.drop_last());
        assert forall|i: int| 0 <= i < s.len() implies s[i] is Some by {
            if i < s.len() - 1 {
                assert(s.drop_last()[i] == s[i]);
            }
        }
    }
}

/// The outcome of a run without the budget it left.
pub open spec fn outcome(r: Result<u64, (u32, HaneulError)>) -> Result<(), (u32, HaneulError)> {
    match r {
        Ok(_) => Ok(()),
        Err(e) => Err(e),
    }
}

proof fn lemma_call_result_deeper(
    d1: nat,
    d2: nat,
    names: Seq<String>,
    budget: nat,
    base: int,
    given: Seq<Seq<char>>,
    s0: Seq<Constant>,
    g0: Seq<Option<Constant>>,
    s1: Seq<Constant>,
    g1: Seq<Option<Constant>>,
    used: nat,
)
    requires
        d1 <= d2,
        call_result(d1, names, budget, base, given, s0, g0, s1, g1, used),
    ensures
        call_result(d2, names, budget, base, given, s0, g0, s1, g1, used),
{
}

proof fn lemma_call_error_deeper(
    d1: nat,
    d2: nat,
    names: Seq<String>,
    budget: nat,
    base: int,
    given: Seq<Seq<char>>,
    line: u32,
    s0: Seq<Constant>,
    g0: Seq<Option<Constant>>,
    r: Result<(), (u32, HaneulError)>,
)
    requires
        d1 <= d2,
        call_error(d1, names, budget, base, given, line, s0, g0, r),
    ensures
        call_error(d2, names, budget, base, given, line, s0, g0, r),
{
}

proof fn lemma_step_deeper(d1: nat, d2: nat, frame: StackFrame, names: Seq<String>, budget: nat, a: RunState, b: RunState)
    requires
        d1 <= d2,
        step_to(d1, frame, names, budget, a, b),
    ensures
        step_to(d2, frame, names, budget, a, b),
{
    if let Opcode::Call(given) = frame.code@[a.ip].opcode {
        lemma_call_result_deeper(
            d1,
            d2,
            names,
            (budget - a.used - 1) as nat,
            frame.slot_start as int,
            labels_of(given@),
            a.stack,
            a.globals,
            b.stack,
            b.globals,
            (b.used - a.used - 1) as nat,
        );
    }
}

proof fn lemma_fails_deeper(
    d1: nat,
    d2: nat,
    frame: StackFrame,
    names: Seq<String>,
    budget: nat,
    a: RunState,
    r: Result<(), (u32, HaneulError)>,
)
    requires
        d1 <= d2,
        step_fails(d1, frame, names, budget, a, r),
    ensures
        step_fails(d2, frame, names, budget, a, r),
{
    if a.used < budget {
        if let Opcode::Call(given) = frame.code@[a.ip].opcode {
            lemma_call_error_deeper(
                d1,
                d2,
                names,
                (budget - a.used - 1) as nat,
                frame.slot_start as int,
                labels_of(given@),
                frame.code@[a.ip].line_number,
                a.stack,
                a.globals,
                r,
            );
        }
    }
}

proof fn lemma_steps_deeper(d1: nat, d2: nat, frame: StackFrame, names: Seq<String>, budget: nat, t: Seq<RunState>)
    requires
        d1 <= d2,
        forall|i: int| 0 <= i < t.len() - 1 ==> step_to(d1, frame, names, budget, #[trigger] t[i], t[i + 1]),
    ensures
        forall|i: int| 0 <= i < t.len() - 1 ==> step_to(d2, frame, names, budget, #[trigger] t[i], t[i + 1]),
{
    assert forall|i: int| 0 <= i < t.len() - 1 implies step_to(d2, frame, names, budget, #[trigger] t[i], t[i + 1]) by {
        lemma_step_deeper(d1, d2, frame, names, budget, t[i], t[i + 1]);
    }
}

proof fn lemma_child_ended(
    d: nat,
    f: FuncObject,
    below: Seq<Constant>,
    args: Seq<Constant>,
    names: Seq<String>,
    budget: nat,
    g0: Seq<Option<Constant>>,
    line: u32,
    r: Result<(), (u32, HaneulError)>,
    d2: nat,
    child_ok: bool,
    cs: Seq<Constant>,
    g2: Seq<Option<Constant>>,
    u: nat,
)
    requires
        d2 < d,
        child_ok ==> frame_result(d2, child_frame(f, below.len() as int), names, budget, below + args, g0, Ok(()), cs, g2, u)
            && cs.len() <= below.len() && r == Err::<(), (u32, HaneulError)>((line, HaneulError::MalformedCode)),
        !child_ok ==> r is Err && frame_result(d2, child_frame(f, below.len() as int), names, budget, below + args, g0, r, cs, g2, u),
    ensures
        child_fails(d, f, below, args, names, budget, g0, line, r),
{
    assert(ended_with(d2, cs, g2, u));
    let c = child_frame(f, below.len() as int);
    if child_ok {
        assert(frame_result(d2, c, names, budget, below + args, g0, Ok(()), cs, g2, u));
    } else {
        assert(frame_result(d2, c, names, budget, below + args, g0, r, cs, g2, u));
    }
}

proof fn lemma_child_returned(
    d: nat,
    f: FuncObject,
    below: Seq<Constant>,
    args: Seq<Constant>,
    names: Seq<String>,
    budget: nat,
    g0: Seq<Option<Constant>>,
    s1: Seq<Constant>,
    g1: Seq<Option<Constant>>,
    used: nat,
    d2: nat,
    cs: Seq<Constant>,
)
    requires
        d2 < d,
        frame_result(d2, child_frame(f, below.len() as int), names, budget, below + args, g0, Ok(()), cs, g1, used),
        cs.len() > below.len(),
        cs.subrange(0, below.len() as int) == below,
        s1 == below.push(cs.last()),
    ensures
        child_returns(d, f, below, args, names, budget, g0, s1, g1, used),
{
    assert(returned_with(d2, cs));
    assert(frame_result(d2, child_frame(f, below.len() as int), names, budget, below + args, g0, Ok(()), cs, g1, used));
}

} // verus!
