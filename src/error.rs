use crate::constant::Constant;
use crate::opcode::{BinaryOp, UnaryOp};
use crate::shared::{char_from_u32, push_char};
use vstd::prelude::*;
use vstd::string::StringExecFns;

verus! {

/// A failure of a running program. The machine reports it with the line
/// number of the instruction that failed.
#[derive(Debug, PartialEq)]
#[allow(inconsistent_fields)]
pub enum HaneulError {
    /// A global slot was read before anything was stored in it.
    UnboundVariable { var_name: String },
    /// A call gave more arguments than the function has slots left.
    TooManyArgs { actual_arity: usize, given_arity: usize },
    /// A value that is not a function was called.
    NotCallable { value: Constant },
    /// A conditional jump found something other than a boolean.
    ExpectedBoolean { value: Constant },
    /// A unary operator was applied to a value it is not defined on.
    InvalidUnaryOp { value: Constant, op: UnaryOp },
    /// A binary operator was applied to values it is not defined on.
    InvalidBinaryOp { lhs: Constant, rhs: Constant, op: BinaryOp },
    /// A call named a label the function does not have.
    UnboundJosa { josa: String },
    /// A call named a label whose slot is already filled.
    AlreadyAppliedJosa { josa: String },
    /// The bytecode broke the compiler's contract: it read past the stack,
    /// a table or the globals, or captured into something not a closure.
    MalformedCode,
    /// The machine ran out of its budget of instructions.
    StepLimitExceeded,
}

/// The decimal digits of a number, most significant first.
pub open spec fn decimal(n: nat) -> Seq<char>
    decreases n,
{
    if n < 10 {
        seq![digit_char(n)]
    } else {
        decimal(n / 10).push(digit_char(n % 10))
    }
}

/// The character of a decimal digit.
pub open spec fn digit_char(d: nat) -> char {
    (0x30 + d) as u32 as char
}

/// Appends the decimal digits of `n`.
fn push_decimal(s: &mut String, n: usize)
    ensures
        final(s)@ == old(s)@ + decimal(n as nat),
    decreases n,
{
    if n >= 10 {
        push_decimal(s, n / 10);
    }
    let d = (n % 10) as u32;
    match char_from_u32(0x30 + d) {
        Some(c) => {
            proof {
                vstd::utf8::char_u32_cast(c, (0x30 + d) as u32);
            }
            push_char(s, c);
        },
        None => {
            proof {
                assert(vstd::utf8::is_scalar((0x30 + d) as u32));
            }
        },
    }
    proof {
        if n >= 10 {
            assert(old(s)@ + decimal(n as nat) =~= old(s)@ + decimal((n / 10) as nat) + seq![digit_char((n % 10) as nat)]);
        } else {
            assert(old(s)@ + decimal(n as nat) =~= old(s)@ + seq![digit_char(n as nat)]);
        }
    }
}

impl HaneulError {
    /// The message shown for the error.
    pub open spec fn spec_message(self) -> Seq<char> {
        match self {
            HaneulError::UnboundVariable { var_name } => "변수 '"@ + var_name@ + "'을(를) 찾을 수 없습니다."@,
            HaneulError::TooManyArgs { actual_arity, given_arity } => "인수 "@ + decimal(actual_arity as nat)
                + "개를 받는 함수인데 "@ + decimal(given_arity as nat) + "개가 주어졌습니다."@,
            HaneulError::NotCallable { value } => value.spec_type_label() + " 타입은 호출 가능한 타입이 아닙니다."@,
            HaneulError::ExpectedBoolean { value } => "여기에는 부울 타입이 와야하는데 "@ + value.spec_type_label()
                + " 타입이 주어졌습니다."@,
            HaneulError::InvalidUnaryOp { value, op } => value.spec_type_label() + " 타입에는 "@ + op.spec_op_name()
                + " 연산을 적용할 수 없습니다."@,
            HaneulError::InvalidBinaryOp { lhs, rhs, op } => lhs.spec_type_label() + " 타입과 "@
                + rhs.spec_type_label() + " 타입에는 "@ + op.spec_op_name() + " 연산을 적용할 수 없습니다."@,
            HaneulError::UnboundJosa { josa } => "조사 '"@ + josa@ + "'에 해당하는 인수가 없습니다."@,
            HaneulError::AlreadyAppliedJosa { josa } => "조사 '"@ + josa@ + "'에 해당하는 인수가 이미 주어졌습니다."@,
            HaneulError::MalformedCode => "바이트코드가 올바르지 않습니다."@,
            HaneulError::StepLimitExceeded => "실행할 수 있는 명령어 수를 넘었습니다."@,
        }
    }

    pub fn message(&self) -> (r: String)
        ensures
            r@ == self.spec_message(),
    {
        match self {
            HaneulError::UnboundVariable { var_name } => {
                let mut s = String::from_str("변수 '");
                s.append(var_name.as_str());
                s.append("'을(를) 찾을 수 없습니다.");
                s
            },
            HaneulError::TooManyArgs { actual_arity, given_arity } => {
                let mut s = String::from_str("인수 ");
                push_decimal(&mut s, *actual_arity);
                s.append("개를 받는 함수인데 ");
                push_decimal(&mut s, *given_arity);
                s.append("개가 주어졌습니다.");
                s
            },
            HaneulError::NotCallable { value } => {
                let mut s = String::from_str(value.type_label());
                s.append(" 타입은 호출 가능한 타입이 아닙니다.");
                s
            },
            HaneulError::ExpectedBoolean { value } => {
                let mut s = String::from_str("여기에는 부울 타입이 와야하는데 ");
                s.append(value.type_label());
                s.append(" 타입이 주어졌습니다.");
                s
            },
            HaneulError::InvalidUnaryOp { value, op } => {
                let mut s = String::from_str(value.type_label());
                s.append(" 타입에는 ");
                s.append(op.op_name());
                s.append(" 연산을 적용할 수 없습니다.");
                s
            },
            HaneulError::InvalidBinaryOp { lhs, rhs, op } => {
                let mut s = String::from_str(lhs.type_label());
                s.append(" 타입과 ");
                s.append(rhs.type_label());
                s.append(" 타입에는 ");
                s.append(op.op_name());
                s.append(" 연산을 적용할 수 없습니다.");
                s
            },
            HaneulError::UnboundJosa { josa } => {
                let mut s = String::from_str("조사 '");
                s.append(josa.as_str());
                s.append("'에 해당하는 인수가 없습니다.");
                s
            },
            HaneulError::AlreadyAppliedJosa { josa } => {
                let mut s = String::from_str("조사 '");
                s.append(josa.as_str());
                s.append("'에 해당하는 인수가 이미 주어졌습니다.");
                s
            },
            HaneulError::MalformedCode => String::from_str("바이트코드가 올바르지 않습니다."),
            HaneulError::StepLimitExceeded => String::from_str("실행할 수 있는 명령어 수를 넘었습니다."),
        }
    }
}

} // verus!
