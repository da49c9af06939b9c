use haneul::builtin::{get_builtin, PRINT_NATIVE};
use haneul::constant::{Constant, FuncObject};
use haneul::error::HaneulError;
use haneul::host::Host;
use haneul::instruction::Instruction;
use haneul::josa::JosaMap;
use haneul::machine::{Machine, StackFrame};
use haneul::opcode::{BinaryOp, Opcode, UnaryOp};
use std::cmp::Ordering;
use std::rc::Rc;

struct TestHost {
    printed: Vec<Constant>,
}

impl Host for TestHost {
    fn call_native(&mut self, id: u32, args: Vec<Constant>) -> Constant {
        assert_eq!(id, PRINT_NATIVE);
        self.printed.extend(args);
        Constant::Nil
    }

    fn real_from_integer(&mut self, value: i64) -> u64 {
        (value as f64).to_bits()
    }

    fn real_arith(&mut self, op: BinaryOp, lhs: u64, rhs: u64) -> u64 {
        let (a, b) = (f64::from_bits(lhs), f64::from_bits(rhs));
        let r = match op {
            BinaryOp::Add => a + b,
            BinaryOp::Subtract => a - b,
            BinaryOp::Multiply => a * b,
            BinaryOp::Divide => a / b,
            _ => unreachable!(),
        };
        r.to_bits()
    }
}

fn host() -> TestHost {
    TestHost { printed: Vec::new() }
}

fn inst(line_number: u32, opcode: Opcode) -> Instruction {
    Instruction { line_number, opcode }
}

fn frame(code: Vec<Instruction>, consts: Vec<Constant>) -> StackFrame {
    StackFrame { code: Rc::new(code), const_table: Rc::new(consts), free_vars: Rc::new(Vec::new()), slot_start: 0 }
}

fn labels(list: &[&str]) -> JosaMap {
    JosaMap::new(&list.iter().map(|s| s.to_string()).collect())
}

fn function(list: &[&str], code: Vec<Instruction>, consts: Vec<Constant>) -> Constant {
    Constant::Function {
        josa_map: labels(list),
        func_object: FuncObject::CodeObject {
            code: Rc::new(code),
            const_table: Rc::new(consts),
            free_vars: Rc::new(Vec::new()),
        },
    }
}

fn call(list: &[&str]) -> Opcode {
    Opcode::Call(list.iter().map(|s| s.to_string()).collect())
}

fn run(code: Vec<Instruction>, consts: Vec<Constant>, globals: usize) -> (Machine, Result<(), (u32, HaneulError)>) {
    let names = (0..globals).map(|i| format!("g{}", i)).collect();
    let mut m = Machine::new(Vec::new(), names);
    let r = m.run(&mut host(), &frame(code, consts));
    (m, r)
}

#[test]
fn push_pop_identity() {
    let (m, r) = run(vec![inst(1, Opcode::Push(0)), inst(1, Opcode::Pop)], vec![Constant::Integer(42)], 0);
    assert_eq!(r, Ok(()));
    assert!(m.operand_stack.is_empty());
}

#[test]
fn integer_arithmetic() {
    let code = vec![inst(1, Opcode::Push(0)), inst(1, Opcode::Push(1)), inst(1, Opcode::BinaryOp(BinaryOp::Add))];
    let (m, r) = run(code, vec![Constant::Integer(3), Constant::Integer(4)], 0);
    assert_eq!(r, Ok(()));
    assert_eq!(m.operand_stack.last(), Some(&Constant::Integer(7)));
}

#[test]
fn mixed_coercion() {
    let code = vec![inst(1, Opcode::Push(0)), inst(1, Opcode::Push(1)), inst(1, Opcode::BinaryOp(BinaryOp::Multiply))];
    let (m, r) = run(code, vec![Constant::Integer(2), Constant::Real(3.5f64.to_bits())], 0);
    assert_eq!(r, Ok(()));
    assert_eq!(m.operand_stack.last(), Some(&Constant::Real(7.0f64.to_bits())));
}

#[test]
fn mixed_addition_is_real_in_either_order() {
    let left = vec![inst(1, Opcode::Push(0)), inst(1, Opcode::Push(1)), inst(1, Opcode::BinaryOp(BinaryOp::Add))];
    let right = vec![inst(1, Opcode::Push(1)), inst(1, Opcode::Push(0)), inst(1, Opcode::BinaryOp(BinaryOp::Add))];
    let consts = vec![Constant::Integer(2), Constant::Real(0.25f64.to_bits())];
    let (m1, _) = run(left, consts.clone(), 0);
    let (m2, _) = run(right, consts, 0);
    assert_eq!(m1.operand_stack.last(), Some(&Constant::Real(2.25f64.to_bits())));
    assert_eq!(m1.operand_stack.last(), m2.operand_stack.last());
}

#[test]
fn error_line() {
    let code = vec![inst(3, Opcode::Push(0)), inst(4, Opcode::Pop), inst(17, Opcode::LoadGlobal(0))];
    let mut m = Machine::new(vec![None], vec![String::from("사과")]);
    let r = m.run(&mut host(), &frame(code, vec![Constant::Integer(1)]));
    assert_eq!(r, Err((17, HaneulError::UnboundVariable { var_name: String::from("사과") })));
}

/// A function of two labelled parameters that subtracts the second from the first.
fn subtract_function() -> Constant {
    function(
        &["을", "로"],
        vec![inst(2, Opcode::Load(0)), inst(2, Opcode::Load(1)), inst(2, Opcode::BinaryOp(BinaryOp::Subtract))],
        vec![],
    )
}

#[test]
fn partial_application() {
    let consts = vec![subtract_function(), Constant::Integer(10), Constant::Integer(3)];
    // At once: the first label takes the top value.
    let once = vec![
        inst(1, Opcode::Push(2)),
        inst(1, Opcode::Push(1)),
        inst(1, Opcode::Push(0)),
        inst(1, call(&["을", "로"])),
    ];
    // In two calls, keeping the partial function in a global between them.
    let twice = vec![
        inst(1, Opcode::Push(1)),
        inst(1, Opcode::Push(0)),
        inst(1, call(&["을"])),
        inst(1, Opcode::StoreGlobal(0)),
        inst(1, Opcode::Push(2)),
        inst(1, Opcode::LoadGlobal(0)),
        inst(1, call(&["로"])),
    ];
    let (m1, r1) = run(once, consts.clone(), 1);
    let (m2, r2) = run(twice, consts, 1);
    assert_eq!(r1, Ok(()));
    assert_eq!(r2, Ok(()));
    assert_eq!(m1.operand_stack, vec![Constant::Integer(7)]);
    assert_eq!(m2.operand_stack, vec![Constant::Integer(7)]);
}

#[test]
fn call_leaves_exactly_one_value() {
    // The callee leaves three values above its argument; the caller sees
    // the top one in place of the callee and its argument.
    let messy = function(
        &["을"],
        vec![inst(2, Opcode::Push(0)), inst(2, Opcode::Push(1)), inst(2, Opcode::Load(0))],
        vec![Constant::Integer(8), Constant::Integer(9)],
    );
    let code = vec![
        inst(1, Opcode::Push(1)),
        inst(1, Opcode::Push(2)),
        inst(1, Opcode::Push(0)),
        inst(1, call(&["을"])),
    ];
    let (m, r) = run(code, vec![messy, Constant::Boolean(true), Constant::Char('x')], 0);
    assert_eq!(r, Ok(()));
    assert_eq!(m.operand_stack, vec![Constant::Boolean(true), Constant::Char('x')]);
}

#[test]
fn partial_application_in_consecutive_calls() {
    let consts = vec![Constant::Integer(10), Constant::Integer(3), subtract_function()];
    let split = vec![
        inst(1, Opcode::Push(0)),
        inst(1, Opcode::Push(1)),
        inst(1, Opcode::Push(2)),
        inst(1, call(&["을"])),
        inst(1, call(&["로"])),
    ];
    let whole = vec![
        inst(1, Opcode::Push(0)),
        inst(1, Opcode::Push(1)),
        inst(1, Opcode::Push(2)),
        inst(1, call(&["을", "로"])),
    ];
    let (m1, r1) = run(split, consts.clone(), 0);
    let (m2, r2) = run(whole, consts, 0);
    assert_eq!(r1, Ok(()));
    assert_eq!(r2, Ok(()));
    assert_eq!(m1.operand_stack, vec![Constant::Integer(-7)]);
    assert_eq!(m2.operand_stack, vec![Constant::Integer(-7)]);
}

#[test]
fn wildcard_binds_first_unfilled_slot() {
    let consts = vec![subtract_function(), Constant::Integer(10), Constant::Integer(3)];
    let code = vec![
        inst(1, Opcode::Push(2)),
        inst(1, Opcode::Push(1)),
        inst(1, Opcode::Push(0)),
        inst(1, call(&["_", "_"])),
    ];
    let (m, r) = run(code, consts, 0);
    assert_eq!(r, Ok(()));
    assert_eq!(m.operand_stack, vec![Constant::Integer(7)]);
}

#[test]
fn closure_capture() {
    let inner = function(&[], vec![inst(5, Opcode::LoadDeref(0))], vec![]);
    let code = vec![
        inst(1, Opcode::Push(0)),
        inst(2, Opcode::Push(1)),
        inst(2, Opcode::FreeVarLocal(0)),
        inst(2, Opcode::StoreGlobal(0)),
        inst(3, Opcode::LoadGlobal(0)),
        inst(3, call(&[])),
    ];
    let (m, r) = run(code, vec![Constant::Integer(5), inner], 1);
    assert_eq!(r, Ok(()));
    assert_eq!(m.operand_stack, vec![Constant::Integer(5), Constant::Integer(5)]);
}

#[test]
fn if_else_leaves_no_residue() {
    // if 1 < 2 { 10 + 0 } else { 20 + 0 }, with each branch's value popped.
    let build = |cond: i64| {
        vec![
            inst(1, Opcode::Push(cond as u32)),
            inst(1, Opcode::Push(2)),
            inst(1, Opcode::BinaryOp(BinaryOp::Cmp(Ordering::Less))),
            inst(1, Opcode::PopJmpIfFalse(7)),
            inst(2, Opcode::Push(0)),
            inst(2, Opcode::StoreGlobal(0)),
            inst(2, Opcode::Jmp(9)),
            inst(3, Opcode::Push(1)),
            inst(3, Opcode::StoreGlobal(0)),
        ]
    };
    let consts = vec![Constant::Integer(10), Constant::Integer(20), Constant::Integer(2), Constant::Integer(1)];
    for (cond, expect) in [(3i64, 10i64), (2, 20)] {
        let mut m = Machine::new(Vec::new(), vec![String::from("x")]);
        let r = m.run(&mut host(), &frame(build(cond), consts.clone()));
        assert_eq!(r, Ok(()));
        assert!(m.operand_stack.is_empty());
        assert_eq!(m.global_vars, vec![Some(Constant::Integer(expect))]);
    }
}

#[test]
fn native_print_is_called_with_its_argument() {
    let mut m = Machine::new(get_builtin(), vec![String::from("보여주다")]);
    let mut h = host();
    let code = vec![inst(1, Opcode::Push(0)), inst(1, Opcode::LoadGlobal(0)), inst(1, call(&["을"]))];
    let r = m.run(&mut h, &frame(code, vec![Constant::Char('가')]));
    assert_eq!(r, Ok(()));
    assert_eq!(h.printed, vec![Constant::Char('가')]);
    assert_eq!(m.operand_stack, vec![Constant::Nil]);
}

#[test]
fn builtin_globals_hold_print() {
    let g = get_builtin();
    assert_eq!(g.len(), 1);
    match &g[0] {
        Some(Constant::Function { josa_map, func_object }) => {
            assert_eq!(josa_map, &labels(&["을"]));
            assert!(matches!(func_object, FuncObject::NativeFunc { id: PRINT_NATIVE }));
            // A native function equals nothing, itself included.
            assert_ne!(func_object, &FuncObject::NativeFunc { id: PRINT_NATIVE });
        }
        _ => panic!("slot 0 is not a function"),
    }
}

#[test]
fn globals_are_padded_to_the_names() {
    let m = Machine::new(get_builtin(), vec![String::from("a"), String::from("b"), String::from("c")]);
    assert_eq!(m.global_vars.len(), 3);
    assert_eq!(m.global_vars[1], None);
    assert_eq!(m.global_vars[2], None);
}

#[test]
fn too_many_args() {
    let code = vec![inst(1, Opcode::Push(1)), inst(1, Opcode::Push(1)), inst(1, Opcode::Push(1)), inst(1, Opcode::Push(0)), inst(9, call(&["을", "로", "_"]))];
    let (_, r) = run(code, vec![subtract_function(), Constant::Integer(1)], 0);
    assert_eq!(r, Err((9, HaneulError::TooManyArgs { actual_arity: 2, given_arity: 3 })));
}

#[test]
fn unbound_and_already_applied_josa() {
    let consts = vec![subtract_function(), Constant::Integer(1)];
    let code = vec![inst(1, Opcode::Push(1)), inst(1, Opcode::Push(0)), inst(4, call(&["에게"]))];
    let (_, r) = run(code, consts.clone(), 0);
    assert_eq!(r, Err((4, HaneulError::UnboundJosa { josa: String::from("에게") })));
    let code = vec![inst(1, Opcode::Push(1)), inst(1, Opcode::Push(1)), inst(1, Opcode::Push(0)), inst(5, call(&["을", "을"]))];
    let (_, r) = run(code, consts, 0);
    assert_eq!(r, Err((5, HaneulError::AlreadyAppliedJosa { josa: String::from("을") })));
}

#[test]
fn not_callable_and_expected_boolean() {
    let (_, r) = run(vec![inst(1, Opcode::Push(0)), inst(6, call(&[]))], vec![Constant::Integer(1)], 0);
    assert_eq!(r, Err((6, HaneulError::NotCallable { value: Constant::Integer(1) })));
    let (_, r) = run(vec![inst(1, Opcode::Push(0)), inst(7, Opcode::PopJmpIfFalse(0))], vec![Constant::Nil], 0);
    assert_eq!(r, Err((7, HaneulError::ExpectedBoolean { value: Constant::Nil })));
}

#[test]
fn invalid_operators() {
    let (_, r) = run(vec![inst(1, Opcode::Push(0)), inst(2, Opcode::UnaryOp(UnaryOp::Negate))], vec![Constant::Boolean(true)], 0);
    assert_eq!(r, Err((2, HaneulError::InvalidUnaryOp { value: Constant::Boolean(true), op: UnaryOp::Negate })));
    let code = vec![inst(1, Opcode::Push(0)), inst(1, Opcode::Push(1)), inst(3, Opcode::BinaryOp(BinaryOp::Mod))];
    let (_, r) = run(code.clone(), vec![Constant::Real(1.5f64.to_bits()), Constant::Integer(1)], 0);
    assert_eq!(
        r,
        Err((3, HaneulError::InvalidBinaryOp { lhs: Constant::Real(1.5f64.to_bits()), rhs: Constant::Integer(1), op: BinaryOp::Mod }))
    );
    let (_, r) = run(code, vec![Constant::Integer(7), Constant::Integer(0)], 0);
    assert_eq!(
        r,
        Err((3, HaneulError::InvalidBinaryOp { lhs: Constant::Integer(7), rhs: Constant::Integer(0), op: BinaryOp::Mod }))
    );
}

#[test]
fn error_in_callee_keeps_its_line() {
    let failing = function(&[], vec![inst(40, Opcode::Push(0)), inst(41, Opcode::UnaryOp(UnaryOp::Negate))], vec![Constant::Nil]);
    let (_, r) = run(vec![inst(1, Opcode::Push(0)), inst(2, call(&[]))], vec![failing], 0);
    assert_eq!(r, Err((41, HaneulError::InvalidUnaryOp { value: Constant::Nil, op: UnaryOp::Negate })));
}

#[test]
fn malformed_code_is_reported() {
    let (_, r) = run(vec![inst(8, Opcode::Pop)], vec![], 0);
    assert_eq!(r, Err((8, HaneulError::MalformedCode)));
    let (_, r) = run(vec![inst(1, Opcode::Push(0)), inst(9, Opcode::FreeVarLocal(0))], vec![Constant::Integer(1)], 0);
    assert_eq!(r, Err((9, HaneulError::MalformedCode)));
}

#[test]
fn integer_and_real_operations() {
    let arith = |op: BinaryOp, a: Constant, b: Constant| a.binary_op(op, &b, &mut host());
    assert_eq!(arith(BinaryOp::Divide, Constant::Integer(-7), Constant::Integer(2)), Some(Constant::Integer(-3)));
    assert_eq!(arith(BinaryOp::Mod, Constant::Integer(-7), Constant::Integer(2)), Some(Constant::Integer(-1)));
    assert_eq!(arith(BinaryOp::Divide, Constant::Integer(i64::MIN), Constant::Integer(-1)), None);
    assert_eq!(arith(BinaryOp::Add, Constant::Integer(i64::MAX), Constant::Integer(1)), Some(Constant::Integer(i64::MIN)));
    assert_eq!(
        arith(BinaryOp::Cmp(Ordering::Less), Constant::Char('a'), Constant::Char('b')),
        Some(Constant::Boolean(true))
    );
    assert_eq!(
        arith(BinaryOp::Cmp(Ordering::Greater), Constant::Integer(3), Constant::Real(2.5f64.to_bits())),
        Some(Constant::Boolean(true))
    );
    let nan = Constant::Real(f64::NAN.to_bits());
    assert_eq!(arith(BinaryOp::Cmp(Ordering::Equal), nan, Constant::Real(1.0f64.to_bits())), None);
    assert_eq!(
        arith(BinaryOp::Cmp(Ordering::Equal), Constant::Real(0.0f64.to_bits()), Constant::Real((-0.0f64).to_bits())),
        Some(Constant::Boolean(true))
    );
    assert_eq!(
        arith(BinaryOp::Cmp(Ordering::Less), Constant::Real((-2.0f64).to_bits()), Constant::Real((-1.0f64).to_bits())),
        Some(Constant::Boolean(true))
    );
    assert_eq!(
        Constant::Real(1.5f64.to_bits()).unary_op(UnaryOp::Negate),
        Some(Constant::Real((-1.5f64).to_bits()))
    );
    assert_eq!(Constant::Integer(5).unary_op(UnaryOp::Negate), Some(Constant::Integer(-5)));
    assert_eq!(arith(BinaryOp::Add, Constant::Boolean(true), Constant::Integer(1)), None);
}

#[test]
fn equality_of_values() {
    assert_eq!(Constant::Integer(3), Constant::Integer(3));
    assert_ne!(Constant::Integer(3), Constant::Real(3.0f64.to_bits()));
    assert_ne!(Constant::Real(f64::NAN.to_bits()), Constant::Real(f64::NAN.to_bits()));
    assert_eq!(Constant::Real(0.0f64.to_bits()), Constant::Real((-0.0f64).to_bits()));
    assert_eq!(subtract_function(), subtract_function());
    let other = function(&["을", "로"], vec![inst(2, Opcode::Load(1))], vec![]);
    assert_ne!(subtract_function(), other);
    let relabelled = function(
        &["로", "을"],
        vec![inst(2, Opcode::Load(0)), inst(2, Opcode::Load(1)), inst(2, Opcode::BinaryOp(BinaryOp::Subtract))],
        vec![],
    );
    assert_ne!(subtract_function(), relabelled);
    let native = get_builtin().remove(0).unwrap();
    assert_ne!(native.clone(), native);
}

#[test]
fn names_of_types_and_operators() {
    assert_eq!(Constant::Nil.type_label(), "(없음)");
    assert_eq!(Constant::Integer(0).type_label(), "정수");
    assert_eq!(Constant::Real(0).type_label(), "실수");
    assert_eq!(Constant::Char('a').type_label(), "문자");
    assert_eq!(Constant::Boolean(true).type_label(), "부울");
    assert_eq!(subtract_function().type_label(), "함수");
    assert_eq!(BinaryOp::Add.op_name(), "더하기");
    assert_eq!(BinaryOp::Subtract.op_name(), "빼기");
    assert_eq!(BinaryOp::Multiply.op_name(), "곱하기");
    assert_eq!(BinaryOp::Divide.op_name(), "나누기");
    assert_eq!(BinaryOp::Mod.op_name(), "나머지");
    assert_eq!(BinaryOp::Cmp(Ordering::Equal).op_name(), "비교");
    assert_eq!(UnaryOp::Negate.op_name(), "부호 반전");
}

#[test]
fn error_messages() {
    assert_eq!(
        HaneulError::UnboundVariable { var_name: String::from("사과") }.message(),
        "변수 '사과'을(를) 찾을 수 없습니다."
    );
    assert_eq!(
        HaneulError::TooManyArgs { actual_arity: 2, given_arity: 13 }.message(),
        "인수 2개를 받는 함수인데 13개가 주어졌습니다."
    );
    assert_eq!(
        HaneulError::NotCallable { value: Constant::Integer(1) }.message(),
        "정수 타입은 호출 가능한 타입이 아닙니다."
    );
    assert_eq!(
        HaneulError::ExpectedBoolean { value: Constant::Char('a') }.message(),
        "여기에는 부울 타입이 와야하는데 문자 타입이 주어졌습니다."
    );
    assert_eq!(
        HaneulError::InvalidUnaryOp { value: Constant::Nil, op: UnaryOp::Negate }.message(),
        "(없음) 타입에는 부호 반전 연산을 적용할 수 없습니다."
    );
    assert_eq!(
        HaneulError::InvalidBinaryOp { lhs: Constant::Boolean(true), rhs: Constant::Integer(1), op: BinaryOp::Add }.message(),
        "부울 타입과 정수 타입에는 더하기 연산을 적용할 수 없습니다."
    );
}
