use haneul::constant::{Constant, FuncObject};
use haneul::instruction::Instruction;
use haneul::josa::JosaMap;
use haneul::opcode::{BinaryOp, Opcode};
use haneul::parser::{
    boolean, character, constant, instruction, integer, program, real_bits, string, LoadError,
};
use std::rc::Rc;

#[test]
fn parse_integer() {
    assert_eq!(integer(b"\x00\x00\x00\x00\x00\x00\x00\x0a", 0), Ok((10, 8)));
    assert_eq!(integer(b"\x00\x00\x00\x00\x00\x00\x00\x00", 0), Ok((0, 8)));
    assert_eq!(integer(b"\xff\xff\xff\xff\xff\xff\xff\xe0", 0), Ok((-32, 8)));
}

#[test]
fn parse_real() {
    let read = |b: &[u8]| real_bits(b, 0).map(|(v, e)| (f64::from_bits(v), e));
    assert_eq!(read(b"\x3f\xf0\x00\x00\x00\x00\x00\x00"), Ok((1.0, 8)));
    assert_eq!(read(b"\x40\x25\x00\x00\x00\x00\x00\x00"), Ok((10.5, 8)));
    assert_eq!(read(b"\xc0\x59\x00\x00\x00\x00\x00\x00"), Ok((-100.0, 8)));
    assert_eq!(read(b"\x00\x00\x00\x00\x00\x00\x00\x00"), Ok((0.0, 8)));
}

#[test]
fn parse_char() {
    assert_eq!(character(b"\x00\x00\x00\x61", 0), Ok(('a', 4)));
    assert_eq!(character(b"\x00\x00\xac\x00", 0), Ok(('가', 4)));
    assert_eq!(character(b"\x00\x01\xf6\x3b", 0), Ok(('😻', 4)));
    assert_eq!(character(b"\x00\x02\x10\x7b", 0), Ok(('𡁻', 4)));
}

#[test]
fn parse_boolean() {
    assert_eq!(boolean(b"\x00", 0), Ok((false, 1)));
    assert_eq!(boolean(b"\x01", 0), Ok((true, 1)));
}

#[test]
fn parse_string() {
    let b1: &[u8] = b"\x00\x00\x00\x00\x00\x00\x00\x03\xea\xb0\x80\xeb\x82\x98\xeb\x8b\xa4";
    assert_eq!(string(b1, 0), Ok((String::from("가나다"), b1.len())));
    let b2: &[u8] = b"\x00\x00\x00\x00\x00\x00\x00\x0a\xec\x95\x88\xeb\x85\x95\x20\x61\x62\x63\x20\x31\x32\x33";
    assert_eq!(string(b2, 0), Ok((String::from("안녕 abc 123"), b2.len())));
    let b3: &[u8] = b"\x00\x00\x00\x00\x00\x00\x00\x0e\xec\x95\x88\xeb\x85\x95\x20\xf0\x9f\x98\xaf\x20\xf0\x9f\x98\xaa\x20\xf0\x9f\x98\xab\x20\xf0\x9f\x98\xb4\x20\xf0\x9f\x98\x8c\x20\xf0\x9f\x98\x9b";
    assert_eq!(string(b3, 0), Ok((String::from("안녕 😯 😪 😫 😴 😌 😛"), b3.len())));
}

#[test]
fn parse_instruction() {
    assert_eq!(
        instruction(b"\x00\x00\x00\x0a\x01", 0),
        Ok((Instruction { line_number: 10, opcode: Opcode::Pop }, 5))
    );
    // Globals are addressed by index: the four bytes after the tag are the
    // operand, and the rest is left for what follows.
    assert_eq!(
        instruction(b"\x00\x00\x01\xa7\x04\x00\x00\x00\x00\x00\x00\x00\x02\xec\x82\xac\xea\xb3\xbc", 0),
        Ok((Instruction { line_number: 423, opcode: Opcode::LoadGlobal(0) }, 9))
    );
}

#[test]
fn parse_constant() {
    assert_eq!(constant(b"\x00", 0), Ok((Constant::Nil, 1)));
    assert_eq!(constant(b"\x01\x00\x00\x00\x00\x00\x00\x00\x7b", 0), Ok((Constant::Integer(123), 9)));
    assert_eq!(
        constant(b"\x02\x40\x25\x00\x00\x00\x00\x00\x00", 0),
        Ok((Constant::Real(10.5f64.to_bits()), 9))
    );
    assert_eq!(constant(b"\x03\x00\x00\xc5\x48", 0), Ok((Constant::Char('안'), 5)));
    assert_eq!(constant(b"\x04\x01", 0), Ok((Constant::Boolean(true), 2)));

    let code_object = FuncObject::CodeObject {
        code: Rc::new(vec![
            Instruction { line_number: 1, opcode: Opcode::Load(0) },
            Instruction { line_number: 1, opcode: Opcode::Push(0) },
            Instruction { line_number: 1, opcode: Opcode::BinaryOp(BinaryOp::Add) },
        ]),
        const_table: Rc::new(vec![Constant::Integer(1)]),
        free_vars: Rc::new(vec![]),
    };
    let bytes: &[u8] = b"\x05\x01\x00\x00\x00\x00\x00\x00\x00\x01\x01\x00\x00\x00\x00\x00\x00\x00\x01\x00\x00\x00\x00\x00\x00\x00\x03\x00\x00\x00\x01\x02\x00\x00\x00\x00\x00\x00\x00\x01\x00\x00\x00\x00\x00\x00\x00\x00\x01\x08";
    assert_eq!(
        constant(bytes, 0),
        Ok((Constant::Function { josa_map: JosaMap::positional(1), func_object: code_object }, bytes.len()))
    );
}

#[test]
fn truncated_items_are_rejected() {
    assert_eq!(integer(b"\x00\x00\x00", 0), Err(LoadError::UnexpectedEnd));
    assert_eq!(boolean(b"", 0), Err(LoadError::UnexpectedEnd));
    assert_eq!(string(b"\x00\x00\x00\x00\x00\x00\x00\x02\x61", 0), Err(LoadError::UnexpectedEnd));
    assert_eq!(string(b"\x00\x00\x00\x00\x00\x00\x00\x01\xea\xb0", 0), Err(LoadError::UnexpectedEnd));
}

#[test]
fn invalid_char_is_rejected() {
    assert_eq!(character(b"\x00\x00\xd8\x00", 0), Err(LoadError::InvalidChar));
    assert_eq!(character(b"\x00\x11\x00\x00", 0), Err(LoadError::InvalidChar));
}

#[test]
fn invalid_utf8_is_rejected() {
    // An overlong encoding of '/' in a two-byte group.
    assert_eq!(string(b"\x00\x00\x00\x00\x00\x00\x00\x01\xc0\xaf", 0), Err(LoadError::InvalidUtf8));
}

#[test]
fn unknown_tags_are_rejected() {
    assert_eq!(instruction(b"\x00\x00\x00\x01\x63", 0), Err(LoadError::UnknownOpcode));
    assert_eq!(constant(b"\x06", 0), Err(LoadError::UnknownConstant));
}

#[test]
fn boolean_byte_other_than_one_is_false() {
    assert_eq!(boolean(b"\x02", 0), Ok((false, 1)));
}

#[test]
fn parse_call_and_capture_instructions() {
    let call: &[u8] = b"\x00\x00\x00\x02\x05\x00\x00\x00\x00\x00\x00\x00\x01\x00\x00\x00\x00\x00\x00\x00\x01\xec\x9d\x84";
    assert_eq!(
        instruction(call, 0),
        Ok((Instruction { line_number: 2, opcode: Opcode::Call(vec![String::from("을")]) }, call.len()))
    );
    assert_eq!(
        instruction(b"\x00\x00\x00\x03\x12\x07", 0),
        Ok((Instruction { line_number: 3, opcode: Opcode::FreeVarLocal(7) }, 6))
    );
    assert_eq!(
        instruction(b"\x00\x00\x00\x03\x13\x02", 0),
        Ok((Instruction { line_number: 3, opcode: Opcode::FreeVarFree(2) }, 6))
    );
    assert_eq!(
        instruction(b"\x00\x00\x00\x03\x11\x00\x00\x00\x04", 0),
        Ok((Instruction { line_number: 3, opcode: Opcode::LoadDeref(4) }, 9))
    );
}

fn program_bytes() -> Vec<u8> {
    let mut b = Vec::new();
    // one global name, "x"
    b.extend_from_slice(b"\x00\x00\x00\x00\x00\x00\x00\x01");
    b.extend_from_slice(b"\x00\x00\x00\x00\x00\x00\x00\x01x");
    // one constant, Integer(5)
    b.extend_from_slice(b"\x00\x00\x00\x00\x00\x00\x00\x01");
    b.extend_from_slice(b"\x01\x00\x00\x00\x00\x00\x00\x00\x05");
    // two instructions: Push(0), StoreGlobal(0)
    b.extend_from_slice(b"\x00\x00\x00\x00\x00\x00\x00\x02");
    b.extend_from_slice(b"\x00\x00\x00\x01\x00\x00\x00\x00\x00");
    b.extend_from_slice(b"\x00\x00\x00\x01\x03\x00\x00\x00\x00");
    b
}

#[test]
fn load_whole_program() {
    let p = program(&program_bytes()).unwrap();
    assert_eq!(p.global_var_names, vec![String::from("x")]);
    assert_eq!(p.const_table, vec![Constant::Integer(5)]);
    assert_eq!(
        p.code,
        vec![
            Instruction { line_number: 1, opcode: Opcode::Push(0) },
            Instruction { line_number: 1, opcode: Opcode::StoreGlobal(0) },
        ]
    );
}

#[test]
fn trailing_bytes_are_rejected() {
    let mut b = program_bytes();
    b.push(0);
    assert_eq!(program(&b), Err(LoadError::TrailingBytes));
}

#[test]
fn positional_labels_are_distinct() {
    let m = JosaMap::positional(3);
    assert_eq!(m.len(), 3);
    assert_eq!(m.residual_arity(), 3);
    assert_ne!(JosaMap::positional(2), JosaMap::positional(3));
}
