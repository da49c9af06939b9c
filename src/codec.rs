use crate::instruction::InstructionView;
use crate::opcode::{BinaryOp, OpcodeView, UnaryOp};
use crate::parser::{
    signed, spec_constant, spec_constant_items, spec_constants, spec_groups, spec_instruction,
    spec_instruction_items, spec_instructions, spec_program, spec_string, spec_string_items, spec_strings, spec_u32,
    spec_u64, utf8_width, LoadError, LoadedConstant, LoadedProgram,
};
use std::cmp::Ordering;
use vstd::prelude::*;
use vstd::utf8::{encode_scalar, encode_utf8, has_width_1_encoding, has_width_2_encoding, has_width_3_encoding};

verus! {

/// The four big-endian bytes of a `u32`.
pub open spec fn enc_u32(v: u32) -> Seq<u8> {
    seq![((v >> 24) & 0xff) as u8, ((v >> 16) & 0xff) as u8, ((v >> 8) & 0xff) as u8, (v & 0xff) as u8]
}

/// The eight big-endian bytes of a `u64`.
pub open spec fn enc_u64(v: u64) -> Seq<u8> {
    enc_u32((v >> 32) as u32) + enc_u32((v & 0xffff_ffff) as u32)
}

/// Whether `s` holds `bytes` from position `p`.
pub open spec fn holds_at(s: Seq<u8>, p: int, bytes: Seq<u8>) -> bool {
    0 <= p && p + bytes.len() <= s.len() && s.subrange(p, p + bytes.len()) == bytes
}

proof fn lemma_u32_bytes(v: u32)
    ensures
        (((v >> 24) & 0xff) as u8) as int * 0x100_0000 + (((v >> 16) & 0xff) as u8) as int * 0x1_0000 + (((v >> 8)
            & 0xff) as u8) as int * 0x100 + ((v & 0xff) as u8) as int == v as int,
{
    assert(((v >> 24) & 0xff) * 0x100_0000 + ((v >> 16) & 0xff) * 0x1_0000 + ((v >> 8) & 0xff) * 0x100 + (v & 0xff) == v)
        by (bit_vector);
    assert((v >> 24) & 0xff <= 0xff && (v >> 16) & 0xff <= 0xff && (v >> 8) & 0xff <= 0xff && v & 0xff <= 0xff) by (bit_vector);
}

proof fn lemma_u64_halves(v: u64)
    ensures
        ((v >> 32) as u32) as int * 0x1_0000_0000 + ((v & 0xffff_ffff) as u32) as int == v as int,
{
    assert((v >> 32) * 0x1_0000_0000 + (v & 0xffff_ffff) == v) by (bit_vector);
    assert(v >> 32 <= 0xffff_ffff && v & 0xffff_ffff <= 0xffff_ffff) by (bit_vector);
}

/// Decoding the bytes of a `u32` gives it back.
pub proof fn lemma_u32_round_trip(s: Seq<u8>, p: int, v: u32)
    requires
        holds_at(s, p, enc_u32(v)),
    ensures
        spec_u32(s, p) == Ok::<(u32, int), crate::parser::LoadError>((v, p + 4)),
{
    let e = enc_u32(v);
    assert(s[p] == e[0] && s[p + 1] == e[1] && s[p + 2] == e[2] && s[p + 3] == e[3]) by {
        assert(s.subrange(p, p + 4)[0] == s[p]);
        assert(s.subrange(p, p + 4)[1] == s[p + 1]);
        assert(s.subrange(p, p + 4)[2] == s[p + 2]);
        assert(s.subrange(p, p + 4)[3] == s[p + 3]);
    }
    lemma_u32_bytes(v);
}

/// Decoding the bytes of a `u64` gives it back.
pub proof fn lemma_u64_round_trip(s: Seq<u8>, p: int, v: u64)
    requires
        holds_at(s, p, enc_u64(v)),
    ensures
        spec_u64(s, p) == Ok::<(u64, int), crate::parser::LoadError>((v, p + 8)),
{
    let hi = (v >> 32) as u32;
    let lo = (v & 0xffff_ffff) as u32;
    assert(s.subrange(p, p + 4) =~= enc_u32(hi)) by {
        assert(s.subrange(p, p + 4) =~= s.subrange(p, p + 8).subrange(0, 4));
    }
    assert(s.subrange(p + 4, p + 8) =~= enc_u32(lo)) by {
        assert(s.subrange(p + 4, p + 8) =~= s.subrange(p, p + 8).subrange(4, 8));
    }
    lemma_u32_round_trip(s, p, hi);
    lemma_u32_round_trip(s, p + 4, lo);
    lemma_u64_halves(v);
}

/// The bytes of a string: its count of characters, then its UTF-8 bytes.
pub open spec fn enc_string(chars: Seq<char>) -> Seq<u8> {
    enc_u64(chars.len() as u64) + encode_utf8(chars)
}

proof fn lemma_scalar_width(c: char)
    ensures
        encode_scalar(c as u32).len() > 0,
        utf8_width(encode_scalar(c as u32)[0]) == encode_scalar(c as u32).len(),
{
    let v = c as u32;
    vstd::utf8::char_is_scalar(c);
    if has_width_1_encoding(v) {
        assert(v <= 0x7f ==> ((v & 0x7F) as u8) < 0x80) by (bit_vector);
    } else if has_width_2_encoding(v) {
        assert(0x80 <= v <= 0x7ff ==> 0x80 <= (0xC0 | ((v >> 6) & 0x1F) as u8) < 0xE0) by (bit_vector);
    } else if has_width_3_encoding(v) {
        assert(0x800 <= v <= 0xffff ==> 0xE0 <= (0xE0 | ((v >> 12) & 0x0F) as u8) < 0xF0) by (bit_vector);
    } else {
        assert(0xF0 <= (0xF0 | ((v >> 18) & 0x7) as u8)) by (bit_vector);
    }
}

proof fn lemma_groups_round_trip(s: Seq<u8>, p: int, chars: Seq<char>)
    requires
        holds_at(s, p, encode_utf8(chars)),
    ensures
        spec_groups(s, p, chars.len()) == Ok::<(Seq<u8>, int), crate::parser::LoadError>(
            (encode_utf8(chars), p + encode_utf8(chars).len()),
        ),
    decreases chars.len(),
{
    if chars.len() > 0 {
        vstd::utf8::char_is_scalar(chars[0]);
        let first = encode_scalar(chars[0] as u32);
        let rest = chars.drop_first();
        let all = encode_utf8(chars);
        assert(all == first + encode_utf8(rest));
        lemma_scalar_width(chars[0]);
        let w = first.len() as int;
        assert(s[p] == first[0]) by {
            assert(s.subrange(p, p + all.len())[0] == s[p]);
        }
        assert(s.subrange(p, p + w) =~= first) by {
            assert(s.subrange(p, p + w) =~= s.subrange(p, p + all.len()).subrange(0, w));
        }
        assert(holds_at(s, p + w, encode_utf8(rest))) by {
            assert(all.subrange(w, all.len() as int) =~= encode_utf8(rest));
            assert(s.subrange(p + w, p + w + encode_utf8(rest).len()) =~= s.subrange(p, p + all.len()).subrange(
                w,
                all.len() as int,
            ));
        }
        lemma_groups_round_trip(s, p + w, rest);
    } else {
        assert(encode_utf8(chars) =~= Seq::<u8>::empty());
    }
}

/// Decoding the bytes of a string gives it back.
pub proof fn lemma_string_round_trip(s: Seq<u8>, p: int, chars: Seq<char>)
    requires
        chars.len() <= u64::MAX,
        holds_at(s, p, enc_string(chars)),
    ensures
        spec_string(s, p) == Ok::<(Seq<char>, int), crate::parser::LoadError>((chars, p + enc_string(chars).len())),
{
    let e = enc_string(chars);
    let count = enc_u64(chars.len() as u64);
    let body = encode_utf8(chars);
    assert(s.subrange(p, p + 8) =~= count) by {
        assert(s.subrange(p, p + 8) =~= s.subrange(p, p + e.len()).subrange(0, 8));
    }
    lemma_u64_round_trip(s, p, chars.len() as u64);
    assert(s.subrange(p + 8, p + 8 + body.len()) =~= body) by {
        assert(s.subrange(p + 8, p + 8 + body.len()) =~= s.subrange(p, p + e.len()).subrange(8, e.len() as int));
    }
    lemma_groups_round_trip(s, p + 8, chars);
    vstd::utf8::encode_utf8_valid_utf8(chars);
    vstd::utf8::encode_utf8_decode_utf8(chars);
}

proof fn lemma_holds_split(s: Seq<u8>, p: int, a: Seq<u8>, b: Seq<u8>)
    requires
        holds_at(s, p, a + b),
    ensures
        holds_at(s, p, a),
        holds_at(s, p + a.len(), b),
{
    let whole = s.subrange(p, p + a.len() + b.len());
    assert(s.subrange(p, p + a.len()) =~= whole.subrange(0, a.len() as int));
    assert((a + b).subrange(0, a.len() as int) =~= a);
    assert(s.subrange(p + a.len(), p + a.len() + b.len()) =~= whole.subrange(a.len() as int, (a.len() + b.len()) as int));
    assert((a + b).subrange(a.len() as int, (a.len() + b.len()) as int) =~= b);
}

/// The bytes of strings one after another.
pub open spec fn enc_string_items(list: Seq<Seq<char>>) -> Seq<u8>
    decreases list.len(),
{
    if list.len() == 0 {
        Seq::empty()
    } else {
        enc_string(list[0]) + enc_string_items(list.drop_first())
    }
}

/// The bytes of a list of strings: the count, then the strings.
pub open spec fn enc_strings(list: Seq<Seq<char>>) -> Seq<u8> {
    enc_u64(list.len() as u64) + enc_string_items(list)
}

/// Whether a list of strings can be written: every count fits in eight bytes.
pub open spec fn strings_fit(list: Seq<Seq<char>>) -> bool {
    list.len() <= u64::MAX && forall|i: int| 0 <= i < list.len() ==> #[trigger] list[i].len() <= u64::MAX
}

proof fn lemma_string_items_round_trip(s: Seq<u8>, p: int, list: Seq<Seq<char>>)
    requires
        strings_fit(list),
        holds_at(s, p, enc_string_items(list)),
    ensures
        spec_string_items(s, p, list.len()) == Ok::<(Seq<Seq<char>>, int), LoadError>(
            (list, p + enc_string_items(list).len()),
        ),
    decreases list.len(),
{
    if list.len() > 0 {
        let rest = list.drop_first();
        lemma_holds_split(s, p, enc_string(list[0]), enc_string_items(rest));
        assert(list[0].len() <= u64::MAX);
        lemma_string_round_trip(s, p, list[0]);
        assert(strings_fit(rest)) by {
            assert forall|i: int| 0 <= i < rest.len() implies #[trigger] rest[i].len() <= u64::MAX by {
                assert(rest[i] == list[i + 1]);
            }
        }
        lemma_string_items_round_trip(s, p + enc_string(list[0]).len(), rest);
        assert(seq![list[0]] + rest =~= list);
    } else {
        assert(list =~= Seq::<Seq<char>>::empty());
    }
}

/// Decoding the bytes of a list of strings gives it back.
pub proof fn lemma_strings_round_trip(s: Seq<u8>, p: int, list: Seq<Seq<char>>)
    requires
        strings_fit(list),
        holds_at(s, p, enc_strings(list)),
    ensures
        spec_strings(s, p) == Ok::<(Seq<Seq<char>>, int), LoadError>((list, p + enc_strings(list).len())),
{
    lemma_holds_split(s, p, enc_u64(list.len() as u64), enc_string_items(list));
    lemma_u64_round_trip(s, p, list.len() as u64);
    lemma_string_items_round_trip(s, p + 8, list);
}

/// The tag of an operation.
pub open spec fn opcode_tag(op: OpcodeView) -> u8 {
    match op {
        OpcodeView::Push(_) => 0,
        OpcodeView::Pop => 1,
        OpcodeView::Load(_) => 2,
        OpcodeView::StoreGlobal(_) => 3,
        OpcodeView::LoadGlobal(_) => 4,
        OpcodeView::Call(_) => 5,
        OpcodeView::Jmp(_) => 6,
        OpcodeView::PopJmpIfFalse(_) => 7,
        OpcodeView::BinaryOp(BinaryOp::Add) => 8,
        OpcodeView::BinaryOp(BinaryOp::Subtract) => 9,
        OpcodeView::BinaryOp(BinaryOp::Multiply) => 10,
        OpcodeView::BinaryOp(BinaryOp::Divide) => 11,
        OpcodeView::BinaryOp(BinaryOp::Mod) => 12,
        OpcodeView::BinaryOp(BinaryOp::Cmp(Ordering::Equal)) => 13,
        OpcodeView::BinaryOp(BinaryOp::Cmp(Ordering::Less)) => 14,
        OpcodeView::BinaryOp(BinaryOp::Cmp(Ordering::Greater)) => 15,
        OpcodeView::UnaryOp(UnaryOp::Negate) => 16,
        OpcodeView::LoadDeref(_) => 17,
        OpcodeView::FreeVarLocal(_) => 18,
        OpcodeView::FreeVarFree(_) => 19,
    }
}

/// The bytes of an operation's operand.
pub open spec fn enc_operand(op: OpcodeView) -> Seq<u8> {
    match op {
        OpcodeView::Push(v) => enc_u32(v),
        OpcodeView::Load(v) => enc_u32(v),
        OpcodeView::StoreGlobal(v) => enc_u32(v),
        OpcodeView::LoadGlobal(v) => enc_u32(v),
        OpcodeView::Jmp(v) => enc_u32(v),
        OpcodeView::PopJmpIfFalse(v) => enc_u32(v),
        OpcodeView::LoadDeref(v) => enc_u32(v),
        OpcodeView::Call(given) => enc_strings(given),
        OpcodeView::FreeVarLocal(v) => seq![v],
        OpcodeView::FreeVarFree(v) => seq![v],
        _ => Seq::empty(),
    }
}

/// The bytes of an instruction: line number, tag, operand.
pub open spec fn enc_instruction(i: InstructionView) -> Seq<u8> {
    enc_u32(i.line_number) + seq![opcode_tag(i.opcode)] + enc_operand(i.opcode)
}

/// Whether an instruction can be written: a call's labels fit.
pub open spec fn instruction_fits(i: InstructionView) -> bool {
    i.opcode matches OpcodeView::Call(given) ==> strings_fit(given)
}

/// Decoding the bytes of an instruction gives it back.
pub proof fn lemma_instruction_round_trip(s: Seq<u8>, p: int, i: InstructionView)
    requires
        instruction_fits(i),
        holds_at(s, p, enc_instruction(i)),
    ensures
        spec_instruction(s, p) == Ok::<(InstructionView, int), LoadError>((i, p + enc_instruction(i).len())),
{
    let op = i.opcode;
    let head = enc_u32(i.line_number) + seq![opcode_tag(op)];
    lemma_holds_split(s, p, head, enc_operand(op));
    lemma_holds_split(s, p, enc_u32(i.line_number), seq![opcode_tag(op)]);
    lemma_u32_round_trip(s, p, i.line_number);
    assert(s[p + 4] == opcode_tag(op)) by {
        assert(s.subrange(p + 4, p + 5)[0] == s[p + 4]);
    }
    let q = p + 5;
    match op {
        OpcodeView::Push(v) => lemma_u32_round_trip(s, q, v),
        OpcodeView::Load(v) => lemma_u32_round_trip(s, q, v),
        OpcodeView::StoreGlobal(v) => lemma_u32_round_trip(s, q, v),
        OpcodeView::LoadGlobal(v) => lemma_u32_round_trip(s, q, v),
        OpcodeView::Jmp(v) => lemma_u32_round_trip(s, q, v),
        OpcodeView::PopJmpIfFalse(v) => lemma_u32_round_trip(s, q, v),
        OpcodeView::LoadDeref(v) => lemma_u32_round_trip(s, q, v),
        OpcodeView::Call(given) => lemma_strings_round_trip(s, q, given),
        OpcodeView::FreeVarLocal(v) => {
            assert(s[q] == v) by {
                assert(s.subrange(q, q + 1)[0] == s[q]);
            }
        },
        OpcodeView::FreeVarFree(v) => {
            assert(s[q] == v) by {
                assert(s.subrange(q, q + 1)[0] == s[q]);
            }
        },
        _ => {},
    }
}

/// The bytes of instructions one after another.
pub open spec fn enc_instruction_items(list: Seq<InstructionView>) -> Seq<u8>
    decreases list.len(),
{
    if list.len() == 0 {
        Seq::empty()
    } else {
        enc_instruction(list[0]) + enc_instruction_items(list.drop_first())
    }
}

/// The bytes of a list of instructions: the count, then the instructions.
pub open spec fn enc_instructions(list: Seq<InstructionView>) -> Seq<u8> {
    enc_u64(list.len() as u64) + enc_instruction_items(list)
}

/// Whether a list of instructions can be written.
pub open spec fn instructions_fit(list: Seq<InstructionView>) -> bool {
    list.len() <= u64::MAX && forall|i: int| 0 <= i < list.len() ==> instruction_fits(#[trigger] list[i])
}

proof fn lemma_instruction_items_round_trip(s: Seq<u8>, p: int, list: Seq<InstructionView>)
    requires
        instructions_fit(list),
        holds_at(s, p, enc_instruction_items(list)),
    ensures
        spec_instruction_items(s, p, list.len()) == Ok::<(Seq<InstructionView>, int), LoadError>(
            (list, p + enc_instruction_items(list).len()),
        ),
    decreases list.len(),
{
    if list.len() > 0 {
        let rest = list.drop_first();
        lemma_holds_split(s, p, enc_instruction(list[0]), enc_instruction_items(rest));
        lemma_instruction_round_trip(s, p, list[0]);
        assert(instructions_fit(rest)) by {
            assert forall|i: int| 0 <= i < rest.len() implies instruction_fits(#[trigger] rest[i]) by {
                assert(rest[i] == list[i + 1]);
            }
        }
        lemma_instruction_items_round_trip(s, p + enc_instruction(list[0]).len(), rest);
        assert(seq![list[0]] + rest =~= list);
    } else {
        assert(list =~= Seq::<InstructionView>::empty());
    }
}

/// Decoding the bytes of a list of instructions gives it back.
pub proof fn lemma_instructions_round_trip(s: Seq<u8>, p: int, list: Seq<InstructionView>)
    requires
        instructions_fit(list),
        holds_at(s, p, enc_instructions(list)),
    ensures
        spec_instructions(s, p) == Ok::<(Seq<InstructionView>, int), LoadError>((list, p + enc_instructions(list).len())),
{
    lemma_holds_split(s, p, enc_u64(list.len() as u64), enc_instruction_items(list));
    lemma_u64_round_trip(s, p, list.len() as u64);
    lemma_instruction_items_round_trip(s, p + 8, list);
}

/// The eight bytes of an `i64` in two's complement.
pub open spec fn enc_i64(v: i64) -> Seq<u8> {
    enc_u64(if v >= 0 { v as u64 } else { (v + 0x1_0000_0000_0000_0000) as u64 })
}

/// The bytes of a constant: its tag, then its value.
pub open spec fn enc_constant(m: LoadedConstant) -> Seq<u8>
    decreases m, 0int,
{
    match m {
        LoadedConstant::Nil => seq![0u8],
        LoadedConstant::Integer(v) => seq![1u8] + enc_i64(v),
        LoadedConstant::Real(b) => seq![2u8] + enc_u64(b),
        LoadedConstant::Char(c) => seq![3u8] + enc_u32(c as u32),
        LoadedConstant::Boolean(b) => seq![4u8, if b { 1u8 } else { 0u8 }],
        LoadedConstant::Function { arity, consts, code } => seq![5u8, arity] + enc_constants(consts)
            + enc_instructions(code),
    }
}

/// The bytes of constants one after another.
pub open spec fn enc_constant_items(ms: Seq<LoadedConstant>) -> Seq<u8>
    decreases ms, 0int,
{
    if ms.len() == 0 {
        Seq::empty()
    } else {
        enc_constant(ms[0]) + enc_constant_items(ms.subrange(1, ms.len() as int))
    }
}

/// The bytes of a list of constants: the count, then the constants.
pub open spec fn enc_constants(ms: Seq<LoadedConstant>) -> Seq<u8>
    decreases ms, 1int,
{
    enc_u64(ms.len() as u64) + enc_constant_items(ms)
}

/// Whether a constant can be written: every count fits in eight bytes.
pub open spec fn constant_fits(m: LoadedConstant) -> bool
    decreases m,
{
    match m {
        LoadedConstant::Function { arity, consts, code } => {
            &&& consts.len() <= u64::MAX
            &&& instructions_fit(code)
            &&& forall|i: int| 0 <= i < consts.len() ==> constant_fits(#[trigger] consts[i])
        },
        _ => true,
    }
}

/// Whether a list of constants can be written.
pub open spec fn constants_fit(ms: Seq<LoadedConstant>) -> bool {
    ms.len() <= u64::MAX && forall|i: int| 0 <= i < ms.len() ==> constant_fits(#[trigger] ms[i])
}

proof fn lemma_enc_constant_nonempty(m: LoadedConstant)
    ensures
        enc_constant(m).len() > 0,
{
    match m {
        LoadedConstant::Function { arity, consts, code } => {
            assert((seq![5u8, arity] + enc_constants(consts) + enc_instructions(code))[0] == 5u8);
        },
        _ => {},
    }
}

proof fn lemma_constant_round_trip(s: Seq<u8>, p: int, m: LoadedConstant)
    requires
        constant_fits(m),
        holds_at(s, p, enc_constant(m)),
    ensures
        spec_constant(s, p) == Ok::<(LoadedConstant, int), LoadError>((m, p + enc_constant(m).len())),
    decreases m, 0int,
{
    let e = enc_constant(m);
    lemma_enc_constant_nonempty(m);
    assert(s[p] == e[0]) by {
        assert(s.subrange(p, p + e.len())[0] == s[p]);
    }
    match m {
        LoadedConstant::Nil => {},
        LoadedConstant::Integer(v) => {
            let u = if v >= 0 { v as u64 } else { (v + 0x1_0000_0000_0000_0000) as u64 };
            lemma_holds_split(s, p, seq![1u8], enc_u64(u));
            lemma_u64_round_trip(s, p + 1, u);
            assert(signed(u) == v);
        },
        LoadedConstant::Real(b) => {
            lemma_holds_split(s, p, seq![2u8], enc_u64(b));
            lemma_u64_round_trip(s, p + 1, b);
        },
        LoadedConstant::Char(c) => {
            lemma_holds_split(s, p, seq![3u8], enc_u32(c as u32));
            lemma_u32_round_trip(s, p + 1, c as u32);
            vstd::utf8::char_is_scalar(c);
            vstd::utf8::char_u32_cast(c, c as u32);
        },
        LoadedConstant::Boolean(b) => {
            assert(s[p + 1] == e[1]) by {
                assert(s.subrange(p, p + e.len())[1] == s[p + 1]);
            }
        },
        LoadedConstant::Function { arity, consts, code } => {
            let head = seq![5u8, arity];
            lemma_holds_split(s, p, head + enc_constants(consts), enc_instructions(code));
            lemma_holds_split(s, p, head, enc_constants(consts));
            assert(s[p + 1] == arity) by {
                assert(s.subrange(p, p + 2)[1] == s[p + 1]);
            }
            lemma_constants_round_trip(s, p + 2, consts);
            lemma_instructions_round_trip(s, p + 2 + enc_constants(consts).len(), code);
        },
    }
}

proof fn lemma_constant_items_round_trip(s: Seq<u8>, p: int, ms: Seq<LoadedConstant>)
    requires
        forall|i: int| 0 <= i < ms.len() ==> constant_fits(#[trigger] ms[i]),
        holds_at(s, p, enc_constant_items(ms)),
    ensures
        spec_constant_items(s, p, ms.len()) == Ok::<(Seq<LoadedConstant>, int), LoadError>(
            (ms, p + enc_constant_items(ms).len()),
        ),
    decreases ms, 0int,
{
    if ms.len() > 0 {
        let rest = ms.subrange(1, ms.len() as int);
        lemma_holds_split(s, p, enc_constant(ms[0]), enc_constant_items(rest));
        lemma_constant_round_trip(s, p, ms[0]);
        lemma_enc_constant_nonempty(ms[0]);
        assert forall|i: int| 0 <= i < rest.len() implies constant_fits(#[trigger] rest[i]) by {
            assert(rest[i] == ms[i + 1]);
        }
        lemma_constant_items_round_trip(s, p + enc_constant(ms[0]).len(), rest);
        assert(seq![ms[0]] + rest =~= ms);
        assert(ms.len() - 1 == rest.len());
    } else {
        assert(ms =~= Seq::<LoadedConstant>::empty());
    }
}

proof fn lemma_constants_round_trip(s: Seq<u8>, p: int, ms: Seq<LoadedConstant>)
    requires
        constants_fit(ms),
        holds_at(s, p, enc_constants(ms)),
    ensures
        spec_constants(s, p) == Ok::<(Seq<LoadedConstant>, int), LoadError>((ms, p + enc_constants(ms).len())),
    decreases ms, 1int,
{
    lemma_holds_split(s, p, enc_u64(ms.len() as u64), enc_constant_items(ms));
    lemma_u64_round_trip(s, p, ms.len() as u64);
    lemma_constant_items_round_trip(s, p + 8, ms);
}

/// The bytes of a program: global names, constants, code.
pub open spec fn enc_program(lp: LoadedProgram) -> Seq<u8> {
    enc_strings(lp.global_var_names) + enc_constants(lp.const_table) + enc_instructions(lp.code)
}

/// Whether a program can be written: every count fits in eight bytes.
pub open spec fn program_fits(lp: LoadedProgram) -> bool {
    strings_fit(lp.global_var_names) && constants_fit(lp.const_table) && instructions_fit(lp.code)
}

/// Loading the encoding of a program's structure yields that structure:
/// the same global names, the same constants (functions with their arity,
/// constants and code), and the same code.
pub proof fn lemma_program_round_trip(lp: LoadedProgram)
    requires
        program_fits(lp),
    ensures
        spec_program(enc_program(lp)) == Ok::<LoadedProgram, LoadError>(lp),
{
    let s = enc_program(lp);
    let a = enc_strings(lp.global_var_names);
    let b = enc_constants(lp.const_table);
    let c = enc_instructions(lp.code);
    assert(s.subrange(0, s.len() as int) =~= s);
    lemma_holds_split(s, 0, a + b, c);
    lemma_holds_split(s, 0, a, b);
    lemma_strings_round_trip(s, 0, lp.global_var_names);
    lemma_constants_round_trip(s, a.len() as int, lp.const_table);
    lemma_instructions_round_trip(s, (a.len() + b.len()) as int, lp.code);
}

} // verus!
