use crate::constant::{Constant, FuncObject};
use crate::instruction::{Instruction, InstructionView};
use crate::josa::{positional_label, JosaMap};
use crate::opcode::{BinaryOp, Opcode, OpcodeView, UnaryOp};
use crate::program::Program;
use crate::shared::char_from_u32;
use std::cmp::Ordering;
use std::rc::Rc;
use vstd::prelude::*;
use vstd::utf8::{decode_utf8, valid_utf8};

verus! {

/// Why a byte sequence is not a program.
#[derive(Debug, Clone, Copy, PartialEq, Eq)]
pub enum LoadError {
    /// The bytes end in the middle of an item.
    UnexpectedEnd,
    /// A character's code point is not a Unicode scalar value.
    InvalidChar,
    /// The bytes of a string are not UTF-8.
    InvalidUtf8,
    /// An instruction's tag names no operation.
    UnknownOpcode,
    /// A constant's tag names no kind of value.
    UnknownConstant,
    /// Bytes follow the end of the program.
    TrailingBytes,
}

/// The outcome of decoding an item at some position: the item and the
/// position just past it, or why it cannot be decoded.
pub type Decoded<T> = Result<(T, int), LoadError>;

/// Whether an executable decoder's result `r` is the decoding `d`.
pub open spec fn decodes_to<T>(r: Result<(T, usize), LoadError>, d: Decoded<T>) -> bool {
    match d {
        Ok((v, e)) => r matches Ok((w, f)) && w == v && f == e,
        Err(x) => r == Err::<(T, usize), LoadError>(x),
    }
}

/// Whether an executable decoder's result `r` is, in view, the decoding `d`.
pub open spec fn decodes_view<T: View>(r: Result<(T, usize), LoadError>, d: Decoded<T::V>) -> bool {
    match d {
        Ok((v, e)) => r matches Ok((w, f)) && w@ == v && f == e,
        Err(x) => r == Err::<(T, usize), LoadError>(x),
    }
}

/// The big-endian value of the four bytes at `p`.
pub open spec fn be_u32_at(s: Seq<u8>, p: int) -> u32 {
    (s[p] as int * 0x100_0000 + s[p + 1] as int * 0x1_0000 + s[p + 2] as int * 0x100 + s[p + 3] as int) as u32
}

/// The big-endian value of the eight bytes at `p`.
pub open spec fn be_u64_at(s: Seq<u8>, p: int) -> u64 {
    (be_u32_at(s, p) as int * 0x1_0000_0000 + be_u32_at(s, p + 4) as int) as u64
}

pub open spec fn spec_u8(s: Seq<u8>, p: int) -> Decoded<u8> {
    if 0 <= p < s.len() {
        Ok((s[p], p + 1))
    } else {
        Err(LoadError::UnexpectedEnd)
    }
}

pub open spec fn spec_u32(s: Seq<u8>, p: int) -> Decoded<u32> {
    if 0 <= p && p + 4 <= s.len() {
        Ok((be_u32_at(s, p), p + 4))
    } else {
        Err(LoadError::UnexpectedEnd)
    }
}

pub open spec fn spec_u64(s: Seq<u8>, p: int) -> Decoded<u64> {
    if 0 <= p && p + 8 <= s.len() {
        Ok((be_u64_at(s, p), p + 8))
    } else {
        Err(LoadError::UnexpectedEnd)
    }
}

/// The two's-complement reading of a `u64` as an `i64`.
pub open spec fn signed(v: u64) -> i64 {
    if v <= i64::MAX {
        v as i64
    } else {
        (v - 0x1_0000_0000_0000_0000) as i64
    }
}

/// A signed integer: the two's-complement reading of eight bytes.
pub open spec fn spec_i64(s: Seq<u8>, p: int) -> Decoded<i64> {
    match spec_u64(s, p) {
        Ok((v, e)) => Ok((signed(v), e)),
        Err(x) => Err(x),
    }
}

/// A char: a four-byte code point that must be a Unicode scalar value.
pub open spec fn spec_char(s: Seq<u8>, p: int) -> Decoded<char> {
    match spec_u32(s, p) {
        Ok((v, e)) => if vstd::utf8::is_scalar(v) {
            Ok((v as char, e))
        } else {
            Err(LoadError::InvalidChar)
        },
        Err(x) => Err(x),
    }
}

/// A boolean: one byte, true exactly when it is 1.
pub open spec fn spec_bool(s: Seq<u8>, p: int) -> Decoded<bool> {
    match spec_u8(s, p) {
        Ok((b, e)) => Ok((b == 1, e)),
        Err(x) => Err(x),
    }
}

/// The length of a UTF-8 character group, read from its first byte.
pub open spec fn utf8_width(b: u8) -> int {
    if b < 0x80 {
        1
    } else if b < 0xE0 {
        2
    } else if b < 0xF0 {
        3
    } else {
        4
    }
}

/// The bytes of `n` character groups starting at `p`.
pub open spec fn spec_groups(s: Seq<u8>, p: int, n: nat) -> Decoded<Seq<u8>>
    decreases n,
{
    if n == 0 {
        Ok((Seq::<u8>::empty(), p))
    } else if !(0 <= p < s.len()) || p + utf8_width(s[p]) > s.len() {
        Err(LoadError::UnexpectedEnd)
    } else {
        let w = utf8_width(s[p]);
        match spec_groups(s, p + w, (n - 1) as nat) {
            Ok((b, e)) => Ok((s.subrange(p, p + w) + b, e)),
            Err(x) => Err(x),
        }
    }
}

/// A string: a count of characters, then that many character groups, which
/// together must be UTF-8.
pub open spec fn spec_string(s: Seq<u8>, p: int) -> Decoded<Seq<char>> {
    match spec_u64(s, p) {
        Ok((n, q)) => match spec_groups(s, q, n as nat) {
            Ok((b, e)) => if valid_utf8(b) {
                Ok((decode_utf8(b), e))
            } else {
                Err(LoadError::InvalidUtf8)
            },
            Err(x) => Err(x),
        },
        Err(x) => Err(x),
    }
}

/// `n` strings one after another from `p`.
pub open spec fn spec_string_items(s: Seq<u8>, p: int, n: nat) -> Decoded<Seq<Seq<char>>>
    decreases n,
{
    if n == 0 {
        Ok((Seq::<Seq<char>>::empty(), p))
    } else {
        match spec_string(s, p) {
            Ok((x, q)) => match spec_string_items(s, q, (n - 1) as nat) {
                Ok((rest, e)) => Ok((seq![x] + rest, e)),
                Err(y) => Err(y),
            },
            Err(y) => Err(y),
        }
    }
}

/// A list of strings: a count, then the strings.
pub open spec fn spec_strings(s: Seq<u8>, p: int) -> Decoded<Seq<Seq<char>>> {
    match spec_u64(s, p) {
        Ok((n, q)) => spec_string_items(s, q, n as nat),
        Err(x) => Err(x),
    }
}

/// The operation with an operand-free tag.
pub open spec fn plain_opcode(tag: u8) -> Option<OpcodeView> {
    if tag == 1 {
        Some(OpcodeView::Pop)
    } else if tag == 8 {
        Some(OpcodeView::BinaryOp(BinaryOp::Add))
    } else if tag == 9 {
        Some(OpcodeView::BinaryOp(BinaryOp::Subtract))
    } else if tag == 10 {
        Some(OpcodeView::BinaryOp(BinaryOp::Multiply))
    } else if tag == 11 {
        Some(OpcodeView::BinaryOp(BinaryOp::Divide))
    } else if tag == 12 {
        Some(OpcodeView::BinaryOp(BinaryOp::Mod))
    } else if tag == 13 {
        Some(OpcodeView::BinaryOp(BinaryOp::Cmp(Ordering::Equal)))
    } else if tag == 14 {
        Some(OpcodeView::BinaryOp(BinaryOp::Cmp(Ordering::Less)))
    } else if tag == 15 {
        Some(OpcodeView::BinaryOp(BinaryOp::Cmp(Ordering::Greater)))
    } else if tag == 16 {
        Some(OpcodeView::UnaryOp(UnaryOp::Negate))
    } else {
        None
    }
}

/// The operation with a tag whose operand is a `u32`.
pub open spec fn u32_opcode(tag: u8, v: u32) -> Option<OpcodeView> {
    if tag == 0 {
        Some(OpcodeView::Push(v))
    } else if tag == 2 {
        Some(OpcodeView::Load(v))
    } else if tag == 3 {
        Some(OpcodeView::StoreGlobal(v))
    } else if tag == 4 {
        Some(OpcodeView::LoadGlobal(v))
    } else if tag == 6 {
        Some(OpcodeView::Jmp(v))
    } else if tag == 7 {
        Some(OpcodeView::PopJmpIfFalse(v))
    } else if tag == 17 {
        Some(OpcodeView::LoadDeref(v))
    } else {
        None
    }
}

/// Whether a tag's operand is a `u32`.
pub open spec fn has_u32_operand(tag: u8) -> bool {
    tag == 0 || tag == 2 || tag == 3 || tag == 4 || tag == 6 || tag == 7 || tag == 17
}

/// The operation and its operand, after the tag, from `p`.
pub open spec fn spec_opcode(s: Seq<u8>, tag: u8, p: int) -> Decoded<OpcodeView> {
    if plain_opcode(tag) is Some {
        Ok((plain_opcode(tag)->0, p))
    } else if has_u32_operand(tag) {
        match spec_u32(s, p) {
            Ok((v, e)) => Ok((u32_opcode(tag, v)->0, e)),
            Err(x) => Err(x),
        }
    } else if tag == 5 {
        match spec_strings(s, p) {
            Ok((given, e)) => Ok((OpcodeView::Call(given), e)),
            Err(x) => Err(x),
        }
    } else if tag == 18 || tag == 19 {
        match spec_u8(s, p) {
            Ok((v, e)) => Ok((if tag == 18 { OpcodeView::FreeVarLocal(v) } else { OpcodeView::FreeVarFree(v) }, e)),
            Err(x) => Err(x),
        }
    } else {
        Err(LoadError::UnknownOpcode)
    }
}

/// An instruction: a line number, a tag, and the tag's operand.
pub open spec fn spec_instruction(s: Seq<u8>, p: int) -> Decoded<InstructionView> {
    match spec_u32(s, p) {
        Ok((line, q)) => match spec_u8(s, q) {
            Ok((tag, r)) => match spec_opcode(s, tag, r) {
                Ok((op, e)) => Ok((InstructionView { line_number: line, opcode: op }, e)),
                Err(x) => Err(x),
            },
            Err(x) => Err(x),
        },
        Err(x) => Err(x),
    }
}

/// `n` instructions one after another from `p`.
pub open spec fn spec_instruction_items(s: Seq<u8>, p: int, n: nat) -> Decoded<Seq<InstructionView>>
    decreases n,
{
    if n == 0 {
        Ok((Seq::<InstructionView>::empty(), p))
    } else {
        match spec_instruction(s, p) {
            Ok((x, q)) => match spec_instruction_items(s, q, (n - 1) as nat) {
                Ok((rest, e)) => Ok((seq![x] + rest, e)),
                Err(y) => Err(y),
            },
            Err(y) => Err(y),
        }
    }
}

/// A list of instructions: a count, then the instructions.
pub open spec fn spec_instructions(s: Seq<u8>, p: int) -> Decoded<Seq<InstructionView>> {
    match spec_u64(s, p) {
        Ok((n, q)) => spec_instruction_items(s, q, n as nat),
        Err(x) => Err(x),
    }
}

pub fn read_u8(s: &[u8], p: usize) -> (r: Result<(u8, usize), LoadError>)
    ensures
        decodes_to(r, spec_u8(s@, p as int)),
{
    if p < s.len() {
        Ok((s[p], p + 1))
    } else {
        Err(LoadError::UnexpectedEnd)
    }
}

pub fn read_u32(s: &[u8], p: usize) -> (r: Result<(u32, usize), LoadError>)
    ensures
        decodes_to(r, spec_u32(s@, p as int)),
{
    if p > s.len() || s.len() - p < 4 {
        return Err(LoadError::UnexpectedEnd);
    }
    let v = s[p] as u32 * 0x100_0000 + s[p + 1] as u32 * 0x1_0000 + s[p + 2] as u32 * 0x100 + s[p + 3] as u32;
    Ok((v, p + 4))
}

pub fn read_u64(s: &[u8], p: usize) -> (r: Result<(u64, usize), LoadError>)
    ensures
        decodes_to(r, spec_u64(s@, p as int)),
{
    if p > s.len() || s.len() - p < 8 {
        return Err(LoadError::UnexpectedEnd);
    }
    let hi = s[p] as u64 * 0x100_0000 + s[p + 1] as u64 * 0x1_0000 + s[p + 2] as u64 * 0x100 + s[p + 3] as u64;
    let lo = s[p + 4] as u64 * 0x100_0000 + s[p + 5] as u64 * 0x1_0000 + s[p + 6] as u64 * 0x100 + s[p + 7] as u64;
    Ok((hi * 0x1_0000_0000 + lo, p + 8))
}

/// A signed big-endian integer of eight bytes.
pub fn integer(s: &[u8], p: usize) -> (r: Result<(i64, usize), LoadError>)
    ensures
        decodes_to(r, spec_i64(s@, p as int)),
{
    match read_u64(s, p) {
        Ok((v, e)) => {
            let x: i64 = if v <= 0x7fff_ffff_ffff_ffff {
                v as i64
            } else {
                ((v - 0x8000_0000_0000_0000) as i64) - 0x7fff_ffff_ffff_ffff - 1
            };
            Ok((x, e))
        },
        Err(x) => Err(x),
    }
}

/// A double given by its eight big-endian bytes, kept as its bit pattern.
pub fn real_bits(s: &[u8], p: usize) -> (r: Result<(u64, usize), LoadError>)
    ensures
        decodes_to(r, spec_u64(s@, p as int)),
{
    read_u64(s, p)
}

/// A char given by its four-byte code point.
pub fn character(s: &[u8], p: usize) -> (r: Result<(char, usize), LoadError>)
    ensures
        decodes_to(r, spec_char(s@, p as int)),
{
    match read_u32(s, p) {
        Ok((v, e)) => match char_from_u32(v) {
            Some(c) => {
                proof {
                    vstd::utf8::char_u32_cast(c, v);
                }
                Ok((c, e))
            },
            None => Err(LoadError::InvalidChar),
        },
        Err(x) => Err(x),
    }
}

/// A boolean: one byte, true exactly when it is 1.
pub fn boolean(s: &[u8], p: usize) -> (r: Result<(bool, usize), LoadError>)
    ensures
        decodes_to(r, spec_bool(s@, p as int)),
{
    match read_u8(s, p) {
        Ok((b, e)) => Ok((b == 1, e)),
        Err(x) => Err(x),
    }
}

/// Puts `prefix` before the items of a decoding.
pub open spec fn prepend<T>(prefix: Seq<T>, d: Decoded<Seq<T>>) -> Decoded<Seq<T>> {
    match d {
        Ok((b, e)) => Ok((prefix + b, e)),
        Err(x) => Err(x),
    }
}

/// Relies on `String::from_utf8`: the string the bytes encode, or `None`
/// when they are not UTF-8.
#[verifier::external_body]
fn string_from_utf8(bytes: Vec<u8>) -> (r: Option<String>)
    ensures
        r is Some <==> valid_utf8(bytes@),
        r matches Some(t) ==> t@ == decode_utf8(bytes@),
{
    String::from_utf8(bytes).ok()
}

fn read_groups(s: &[u8], p: usize, n: u64) -> (r: Result<(Vec<u8>, usize), LoadError>)
    ensures
        decodes_view(r, spec_groups(s@, p as int, n as nat)),
        r matches Ok((_, f)) ==> f >= p,
{
    let mut bytes: Vec<u8> = Vec::new();
    let mut q = p;
    let mut i: u64 = 0;
    proof {
        assert(Seq::<u8>::empty() + bytes@ == bytes@);
        match spec_groups(s@, p as int, n as nat) {
            Ok((b, e)) => assert(Seq::<u8>::empty() + b =~= b),
            Err(_) => {},
        }
    }
    while i < n
        invariant
            i <= n,
            q >= p,
            spec_groups(s@, p as int, n as nat) == prepend(bytes@, spec_groups(s@, q as int, (n - i) as nat)),
        decreases n - i,
    {
        if q >= s.len() {
            return Err(LoadError::UnexpectedEnd);
        }
        let b = s[q];
        let w: usize = if b < 0x80 { 1 } else if b < 0xE0 { 2 } else if b < 0xF0 { 3 } else { 4 };
        if w > s.len() - q {
            return Err(LoadError::UnexpectedEnd);
        }
        let ghost before = bytes@;
        let end = q + w;
        let mut k: usize = 0;
        while k < w
            invariant
                k <= w,
                end == q + w,
                end <= s@.len(),
                bytes@ == before + s@.subrange(q as int, q + k),
            decreases w - k,
        {
            bytes.push(s[q + k]);
            k = k + 1;
            proof {
                assert(bytes@ =~= before + s@.subrange(q as int, q + k));
            }
        }
        proof {
            let sub = s@.subrange(q as int, q + w);
            match spec_groups(s@, q + w, (n - i - 1) as nat) {
                Ok((rest, e)) => {
                    assert(before + (sub + rest) =~= (before + sub) + rest);
                },
                Err(_) => {},
            }
        }
        q = q + w;
        i = i + 1;
    }
    proof {
        assert(bytes@ + Seq::<u8>::empty() =~= bytes@);
    }
    Ok((bytes, q))
}

/// A string: a count of characters, then that many UTF-8 character groups.
pub fn string(s: &[u8], p: usize) -> (r: Result<(String, usize), LoadError>)
    ensures
        decodes_view(r, spec_string(s@, p as int)),
        r matches Ok((_, f)) ==> f >= p + 8,
{
    let (n, q) = match read_u64(s, p) {
        Ok(x) => x,
        Err(x) => {
            return Err(x);
        },
    };
    let (bytes, e) = match read_groups(s, q, n) {
        Ok(x) => x,
        Err(x) => {
            return Err(x);
        },
    };
    match string_from_utf8(bytes) {
        Some(t) => Ok((t, e)),
        None => Err(LoadError::InvalidUtf8),
    }
}

/// A list of strings: a count, then the strings.
pub fn strings(s: &[u8], p: usize) -> (r: Result<(Vec<String>, usize), LoadError>)
    ensures
        match spec_strings(s@, p as int) {
            Ok((v, e)) => r matches Ok((w, f)) && w@.map_values(|t: String| t@) == v && f == e,
            Err(x) => r == Err::<(Vec<String>, usize), LoadError>(x),
        },
        r matches Ok((_, f)) ==> f >= p + 8,
{
    let (n, mut q) = match read_u64(s, p) {
        Ok(x) => x,
        Err(x) => {
            return Err(x);
        },
    };
    let mut items: Vec<String> = Vec::new();
    let mut i: u64 = 0;
    proof {
        match spec_string_items(s@, q as int, n as nat) {
            Ok((b, e)) => assert(Seq::<Seq<char>>::empty() + b =~= b),
            Err(_) => {},
        }
    }
    while i < n
        invariant
            i <= n,
            q >= p + 8,
            spec_strings(s@, p as int) == prepend(
                items@.map_values(|t: String| t@),
                spec_string_items(s@, q as int, (n - i) as nat),
            ),
        decreases n - i,
    {
        let ghost before = items@.map_values(|t: String| t@);
        let (x, e) = match string(s, q) {
            Ok(x) => x,
            Err(x) => {
                return Err(x);
            },
        };
        items.push(x);
        proof {
            let now = items@.map_values(|t: String| t@);
            assert(now =~= before + seq![x@]);
            match spec_string_items(s@, e as int, (n - i - 1) as nat) {
                Ok((rest, f)) => {
                    assert(before + (seq![x@] + rest) =~= (before + seq![x@]) + rest);
                },
                Err(_) => {},
            }
        }
        q = e;
        i = i + 1;
    }
    proof {
        let v = items@.map_values(|t: String| t@);
        assert(v + Seq::<Seq<char>>::empty() =~= v);
    }
    Ok((items, q))
}

/// An instruction: a line number, a tag, and the tag's operand.
pub fn instruction(s: &[u8], p: usize) -> (r: Result<(Instruction, usize), LoadError>)
    ensures
        decodes_view(r, spec_instruction(s@, p as int)),
        r matches Ok((_, f)) ==> f >= p + 5,
{
    let (line_number, q) = match read_u32(s, p) {
        Ok(x) => x,
        Err(x) => {
            return Err(x);
        },
    };
    let (tag, q) = match read_u8(s, q) {
        Ok(x) => x,
        Err(x) => {
            return Err(x);
        },
    };
    let (opcode, e) = if tag == 1 {
        (Opcode::Pop, q)
    } else if tag == 8 {
        (Opcode::BinaryOp(BinaryOp::Add), q)
    } else if tag == 9 {
        (Opcode::BinaryOp(BinaryOp::Subtract), q)
    } else if tag == 10 {
        (Opcode::BinaryOp(BinaryOp::Multiply), q)
    } else if tag == 11 {
        (Opcode::BinaryOp(BinaryOp::Divide), q)
    } else if tag == 12 {
        (Opcode::BinaryOp(BinaryOp::Mod), q)
    } else if tag == 13 {
        (Opcode::BinaryOp(BinaryOp::Cmp(Ordering::Equal)), q)
    } else if tag == 14 {
        (Opcode::BinaryOp(BinaryOp::Cmp(Ordering::Less)), q)
    } else if tag == 15 {
        (Opcode::BinaryOp(BinaryOp::Cmp(Ordering::Greater)), q)
    } else if tag == 16 {
        (Opcode::UnaryOp(UnaryOp::Negate), q)
    } else if tag == 0 || tag == 2 || tag == 3 || tag == 4 || tag == 6 || tag == 7 || tag == 17 {
        let (v, e) = match read_u32(s, q) {
            Ok(x) => x,
            Err(x) => {
                return Err(x);
            },
        };
        let op = if tag == 0 {
            Opcode::Push(v)
        } else if tag == 2 {
            Opcode::Load(v)
        } else if tag == 3 {
            Opcode::StoreGlobal(v)
        } else if tag == 4 {
            Opcode::LoadGlobal(v)
        } else if tag == 6 {
            Opcode::Jmp(v)
        } else if tag == 7 {
            Opcode::PopJmpIfFalse(v)
        } else {
            Opcode::LoadDeref(v)
        };
        (op, e)
    } else if tag == 5 {
        let (given, e) = match strings(s, q) {
            Ok(x) => x,
            Err(x) => {
                return Err(x);
            },
        };
        (Opcode::Call(given), e)
    } else if tag == 18 || tag == 19 {
        let (v, e) = match read_u8(s, q) {
            Ok(x) => x,
            Err(x) => {
                return Err(x);
            },
        };
        (if tag == 18 { Opcode::FreeVarLocal(v) } else { Opcode::FreeVarFree(v) }, e)
    } else {
        return Err(LoadError::UnknownOpcode);
    };
    Ok((Instruction { line_number, opcode }, e))
}

/// A list of instructions: a count, then the instructions.
pub fn instructions(s: &[u8], p: usize) -> (r: Result<(Vec<Instruction>, usize), LoadError>)
    ensures
        match spec_instructions(s@, p as int) {
            Ok((v, e)) => r matches Ok((w, f)) && w@.map_values(|t: Instruction| t@) == v && f == e,
            Err(x) => r == Err::<(Vec<Instruction>, usize), LoadError>(x),
        },
        r matches Ok((_, f)) ==> f >= p + 8,
{
    let (n, mut q) = match read_u64(s, p) {
        Ok(x) => x,
        Err(x) => {
            return Err(x);
        },
    };
    let mut items: Vec<Instruction> = Vec::new();
    let mut i: u64 = 0;
    proof {
        match spec_instruction_items(s@, q as int, n as nat) {
            Ok((b, e)) => assert(Seq::<InstructionView>::empty() + b =~= b),
            Err(_) => {},
        }
    }
    while i < n
        invariant
            i <= n,
            q >= p + 8,
            spec_instructions(s@, p as int) == prepend(
                items@.map_values(|t: Instruction| t@),
                spec_instruction_items(s@, q as int, (n - i) as nat),
            ),
        decreases n - i,
    {
        let ghost before = items@.map_values(|t: Instruction| t@);
        let (x, e) = match instruction(s, q) {
            Ok(x) => x,
            Err(x) => {
                return Err(x);
            },
        };
        items.push(x);
        proof {
            let now = items@.map_values(|t: Instruction| t@);
            assert(now =~= before + seq![x@]);
            match spec_instruction_items(s@, e as int, (n - i - 1) as nat) {
                Ok((rest, f)) => {
                    assert(before + (seq![x@] + rest) =~= (before + seq![x@]) + rest);
                },
                Err(_) => {},
            }
        }
        q = e;
        i = i + 1;
    }
    proof {
        let v = items@.map_values(|t: Instruction| t@);
        assert(v + Seq::<InstructionView>::empty() =~= v);
    }
    Ok((items, q))
}

/// A constant as the file describes it. A function records its arity, its
/// constants and its code; it is loaded with positional labels, no bound
/// arguments and no captured values.
pub enum LoadedConstant {
    Nil,
    Integer(i64),
    Real(u64),
    Char(char),
    Boolean(bool),
    Function { arity: u8, consts: Seq<LoadedConstant>, code: Seq<InstructionView> },
}

/// A program as the file describes it.
pub struct LoadedProgram {
    pub global_var_names: Seq<Seq<char>>,
    pub const_table: Seq<LoadedConstant>,
    pub code: Seq<InstructionView>,
}

/// Whether `c` is the value that the loader makes of `m`.
pub open spec fn loaded_as(c: Constant, m: LoadedConstant) -> bool
    decreases m,
{
    match m {
        LoadedConstant::Nil => c == Constant::Nil,
        LoadedConstant::Integer(v) => c == Constant::Integer(v),
        LoadedConstant::Real(b) => c == Constant::Real(b),
        LoadedConstant::Char(x) => c == Constant::Char(x),
        LoadedConstant::Boolean(b) => c == Constant::Boolean(b),
        LoadedConstant::Function { arity, consts, code } => match c {
            Constant::Function {
                josa_map,
                func_object: FuncObject::CodeObject { code: body, const_table, free_vars },
            } => {
                &&& josa_map.labels() == Seq::new(arity as nat, |i: int| positional_label(i))
                &&& josa_map.slots() == Seq::new(arity as nat, |i: int| None::<Constant>)
                &&& body@.map_values(|t: Instruction| t@) == code
                &&& free_vars@.len() == 0
                &&& const_table@.len() == consts.len()
                &&& forall|i: int| 0 <= i < consts.len() ==> loaded_as(const_table@[i], #[trigger] consts[i])
            },
            _ => false,
        },
    }
}

/// Whether each value of `cs` is what the loader makes of the same entry of `ms`.
pub open spec fn all_loaded_as(cs: Seq<Constant>, ms: Seq<LoadedConstant>) -> bool {
    cs.len() == ms.len() && forall|i: int| 0 <= i < ms.len() ==> loaded_as(cs[i], #[trigger] ms[i])
}

/// A constant: a tag, then the value's bytes; a function's are its arity,
/// its constants and its code.
pub open spec fn spec_constant(s: Seq<u8>, p: int) -> Decoded<LoadedConstant>
    decreases s.len() - p, 0int,
{
    if !(0 <= p < s.len()) {
        Err(LoadError::UnexpectedEnd)
    } else {
        let tag = s[p];
        if tag == 0 {
            Ok((LoadedConstant::Nil, p + 1))
        } else if tag == 1 {
            match spec_i64(s, p + 1) {
                Ok((v, e)) => Ok((LoadedConstant::Integer(v), e)),
                Err(x) => Err(x),
            }
        } else if tag == 2 {
            match spec_u64(s, p + 1) {
                Ok((v, e)) => Ok((LoadedConstant::Real(v), e)),
                Err(x) => Err(x),
            }
        } else if tag == 3 {
            match spec_char(s, p + 1) {
                Ok((v, e)) => Ok((LoadedConstant::Char(v), e)),
                Err(x) => Err(x),
            }
        } else if tag == 4 {
            match spec_bool(s, p + 1) {
                Ok((v, e)) => Ok((LoadedConstant::Boolean(v), e)),
                Err(x) => Err(x),
            }
        } else if tag == 5 {
            if p + 2 > s.len() {
                Err(LoadError::UnexpectedEnd)
            } else {
                match spec_constants(s, p + 2) {
                    Ok((consts, q)) => match spec_instructions(s, q) {
                        Ok((code, e)) => Ok((LoadedConstant::Function { arity: s[p + 1], consts, code }, e)),
                        Err(x) => Err(x),
                    },
                    Err(x) => Err(x),
                }
            }
        } else {
            Err(LoadError::UnknownConstant)
        }
    }
}

/// `n` constants one after another from `p`. Every constant takes at
/// least its tag byte and ends within the input, so the position moves
/// forward at each one; the check says so for the sake of termination.
pub open spec fn spec_constant_items(s: Seq<u8>, p: int, n: nat) -> Decoded<Seq<LoadedConstant>>
    decreases s.len() - p, 1int, n,
{
    if n == 0 {
        Ok((Seq::<LoadedConstant>::empty(), p))
    } else if !(0 <= p < s.len()) {
        Err(LoadError::UnexpectedEnd)
    } else {
        match spec_constant(s, p) {
            Ok((x, q)) => if q <= p || q > s.len() {
                Err(LoadError::UnexpectedEnd)
            } else {
                match spec_constant_items(s, q, (n - 1) as nat) {
                    Ok((rest, e)) => Ok((seq![x] + rest, e)),
                    Err(y) => Err(y),
                }
            },
            Err(y) => Err(y),
        }
    }
}

/// A list of constants: a count, then the constants.
pub open spec fn spec_constants(s: Seq<u8>, p: int) -> Decoded<Seq<LoadedConstant>>
    decreases s.len() - p, 2int,
{
    if !(0 <= p && p + 8 <= s.len()) {
        Err(LoadError::UnexpectedEnd)
    } else {
        spec_constant_items(s, p + 8, be_u64_at(s, p) as nat)
    }
}

/// A program: the global names, the constants, the code, and nothing after.
pub open spec fn spec_program(s: Seq<u8>) -> Result<LoadedProgram, LoadError> {
    match spec_strings(s, 0) {
        Ok((names, q)) => match spec_constants(s, q) {
            Ok((consts, r)) => match spec_instructions(s, r) {
                Ok((code, e)) => if e == s.len() {
                    Ok(LoadedProgram { global_var_names: names, const_table: consts, code })
                } else {
                    Err(LoadError::TrailingBytes)
                },
                Err(x) => Err(x),
            },
            Err(x) => Err(x),
        },
        Err(x) => Err(x),
    }
}

/// A constant: a tag, then the value's bytes.
pub fn constant(s: &[u8], p: usize) -> (r: Result<(Constant, usize), LoadError>)
    ensures
        match spec_constant(s@, p as int) {
            Ok((m, e)) => r matches Ok((c, f)) && loaded_as(c, m) && f == e,
            Err(x) => r == Err::<(Constant, usize), LoadError>(x),
        },
        r matches Ok((_, f)) ==> f > p,
    decreases s@.len() - p, 0int,
{
    if p >= s.len() {
        return Err(LoadError::UnexpectedEnd);
    }
    let tag = s[p];
    if tag == 0 {
        Ok((Constant::Nil, p + 1))
    } else if tag == 1 {
        match integer(s, p + 1) {
            Ok((v, e)) => Ok((Constant::Integer(v), e)),
            Err(x) => Err(x),
        }
    } else if tag == 2 {
        match real_bits(s, p + 1) {
            Ok((v, e)) => Ok((Constant::Real(v), e)),
            Err(x) => Err(x),
        }
    } else if tag == 3 {
        match character(s, p + 1) {
            Ok((v, e)) => Ok((Constant::Char(v), e)),
            Err(x) => Err(x),
        }
    } else if tag == 4 {
        match boolean(s, p + 1) {
            Ok((v, e)) => Ok((Constant::Boolean(v), e)),
            Err(x) => Err(x),
        }
    } else if tag == 5 {
        if s.len() - p < 2 {
            return Err(LoadError::UnexpectedEnd);
        }
        let arity = s[p + 1];
        let (const_table, q) = match constants(s, p + 2) {
            Ok(x) => x,
            Err(x) => {
                return Err(x);
            },
        };
        let (code, e) = match instructions(s, q) {
            Ok(x) => x,
            Err(x) => {
                return Err(x);
            },
        };
        let josa_map = JosaMap::positional(arity);
        proof {
            assert(josa_map.labels() =~= Seq::new(arity as nat, |i: int| positional_label(i)));
            assert(josa_map.slots() =~= Seq::new(arity as nat, |i: int| None::<Constant>));
        }
        let func_object = FuncObject::CodeObject {
            code: Rc::new(code),
            const_table: Rc::new(const_table),
            free_vars: Rc::new(Vec::new()),
        };
        Ok((Constant::Function { josa_map, func_object }, e))
    } else {
        Err(LoadError::UnknownConstant)
    }
}

/// A list of constants: a count, then the constants.
pub fn constants(s: &[u8], p: usize) -> (r: Result<(Vec<Constant>, usize), LoadError>)
    ensures
        match spec_constants(s@, p as int) {
            Ok((ms, e)) => r matches Ok((cs, f)) && all_loaded_as(cs@, ms) && f == e,
            Err(x) => r == Err::<(Vec<Constant>, usize), LoadError>(x),
        },
        r matches Ok((_, f)) ==> f >= p + 8,
    decreases s@.len() - p, 2int,
{
    let (n, mut q) = match read_u64(s, p) {
        Ok(x) => x,
        Err(x) => {
            return Err(x);
        },
    };
    let mut items: Vec<Constant> = Vec::new();
    let ghost mut done: Seq<LoadedConstant> = Seq::empty();
    let mut i: u64 = 0;
    proof {
        match spec_constant_items(s@, q as int, n as nat) {
            Ok((b, e)) => assert(Seq::<LoadedConstant>::empty() + b =~= b),
            Err(_) => {},
        }
    }
    while i < n
        invariant
            i <= n,
            p + 8 <= q <= s@.len(),
            spec_constants(s@, p as int) == prepend(done, spec_constant_items(s@, q as int, (n - i) as nat)),
            all_loaded_as(items@, done),
        decreases n - i,
    {
        if q >= s.len() {
            return Err(LoadError::UnexpectedEnd);
        }
        let (x, e) = match constant(s, q) {
            Ok(x) => x,
            Err(x) => {
                return Err(x);
            },
        };
        if e <= q || e > s.len() {
            return Err(LoadError::UnexpectedEnd);
        }
        let ghost m = spec_constant(s@, q as int)->Ok_0.0;
        let ghost prev = items@;
        items.push(x);
        proof {
            let before = done;
            done = done.push(m);
            assert(done =~= before + seq![m]);
            assert forall|k: int| 0 <= k < done.len() implies loaded_as(items@[k], #[trigger] done[k]) by {
                if k < before.len() {
                    assert(items@[k] == prev[k]);
                    assert(done[k] == before[k]);
                }
            }
            match spec_constant_items(s@, e as int, (n - i - 1) as nat) {
                Ok((rest, f)) => {
                    assert(before + (seq![m] + rest) =~= (before + seq![m]) + rest);
                },
                Err(_) => {},
            }
        }
        q = e;
        i = i + 1;
    }
    proof {
        assert(done + Seq::<LoadedConstant>::empty() =~= done);
    }
    Ok((items, q))
}

/// Loads a program: the global names, the constants and the code, with
/// nothing after them.
pub fn program(input: &[u8]) -> (r: Result<Program, LoadError>)
    ensures
        match spec_program(input@) {
            Ok(lp) => r matches Ok(prog) && prog.global_var_names@.map_values(|t: String| t@) == lp.global_var_names
                && all_loaded_as(prog.const_table@, lp.const_table) && prog.code@.map_values(|t: Instruction| t@)
                == lp.code,
            Err(x) => r == Err::<Program, LoadError>(x),
        },
{
    let (global_var_names, q) = match strings(input, 0) {
        Ok(x) => x,
        Err(x) => {
            return Err(x);
        },
    };
    let (const_table, q) = match constants(input, q) {
        Ok(x) => x,
        Err(x) => {
            return Err(x);
        },
    };
    let (code, e) = match instructions(input, q) {
        Ok(x) => x,
        Err(x) => {
            return Err(x);
        },
    };
    if e != input.len() {
        return Err(LoadError::TrailingBytes);
    }
    Ok(Program { const_table, code, global_var_names })
}

} // verus!
