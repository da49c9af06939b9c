use crate::constant::{binary_defined, exact_binary, is_real_arith, mixed_comparison, Constant};
use crate::instruction::Instruction;
use crate::josa::{bind_labels, bind_one, unfilled_count, wildcard};
use crate::josa::{labels_of, top_args, JosaMap};
use crate::machine::{
    call_result, balanced, frame_result, heights_fit, jump_target, run_by, simple_step, stack_consumed, stack_effect, step_fails, step_to,
    trace_ok, RunState, StackFrame,
};
use crate::error::HaneulError;
use crate::opcode::{BinaryOp, Opcode};
use vstd::prelude::*;

verus! {

/// Binding arguments over two calls binds them as one call would: the
/// second call starts from the slots the first one left.
pub proof fn lemma_bind_in_two_calls(
    labels: Seq<Seq<char>>,
    slots: Seq<Option<Constant>>,
    g1: Seq<Seq<char>>,
    a1: Seq<Constant>,
    g2: Seq<Seq<char>>,
    a2: Seq<Constant>,
)
    requires
        g1.len() == a1.len(),
        g2.len() == a2.len(),
    ensures
        bind_labels(labels, slots, g1 + g2, a1 + a2) == match bind_labels(labels, slots, g1, a1) {
            Ok(s1) => bind_labels(labels, s1, g2, a2),
            Err(e) => Err(e),
        },
    decreases g1.len(),
{
    if g1.len() == 0 {
        assert(g1 + g2 =~= g2);
        assert(a1 + a2 =~= a2);
    } else {
        assert((g1 + g2)[0] == g1[0]);
        assert((a1 + a2)[0] == a1[0]);
        assert((g1 + g2).drop_first() =~= g1.drop_first() + g2);
        assert((a1 + a2).drop_first() =~= a1.drop_first() + a2);
        match bind_one(labels, slots, g1[0], a1[0]) {
            Ok(next) => {
                lemma_bind_in_two_calls(labels, next, g1.drop_first(), a1.drop_first(), g2, a2);
            },
            Err(_) => {},
        }
    }
}

/// Whether each label given is one of the function's, names a slot not yet
/// filled, is not the wildcard, and is given once.
pub open spec fn fresh_labels(labels: Seq<Seq<char>>, slots: Seq<Option<Constant>>, given: Seq<Seq<char>>) -> bool {
    &&& given.no_duplicates()
    &&& forall|k: int|
        0 <= k < given.len() ==> {
            &&& #[trigger] given[k] != wildcard()
            &&& labels.contains(given[k])
            &&& slots[labels.index_of(given[k])] is None
        }
}

proof fn lemma_unfilled_after_fill(s: Seq<Option<Constant>>, i: int, v: Constant)
    requires
        0 <= i < s.len(),
        s[i] is None,
    ensures
        unfilled_count(s.update(i, Some(v))) + 1 == unfilled_count(s),
    decreases s.len(),
{
    let t = s.update(i, Some(v));
    if i == s.len() - 1 {
        assert(t.drop_last() =~= s.drop_last());
    } else {
        assert(t.drop_last() =~= s.drop_last().update(i, Some(v)));
        lemma_unfilled_after_fill(s.drop_last(), i, v);
    }
}

/// Binding fresh labels succeeds, and fills exactly as many slots as labels
/// are given.
pub proof fn lemma_bind_fresh(
    labels: Seq<Seq<char>>,
    slots: Seq<Option<Constant>>,
    given: Seq<Seq<char>>,
    args: Seq<Constant>,
)
    requires
        labels.len() == slots.len(),
        labels.no_duplicates(),
        given.len() == args.len(),
        fresh_labels(labels, slots, given),
    ensures
        bind_labels(labels, slots, given, args) matches Ok(s) && s.len() == slots.len() && unfilled_count(s)
            + given.len() == unfilled_count(slots),
    decreases given.len(),
{
    if given.len() > 0 {
        let j = given[0];
        assert(j != wildcard() && labels.contains(j) && slots[labels.index_of(j)] is None);
        let i = labels.index_of(j);
        let next = slots.update(i, Some(args[0]));
        assert(bind_one(labels, slots, j, args[0]) == Ok::<Seq<Option<Constant>>, (crate::josa::JosaFault, Seq<char>)>(next));
        lemma_unfilled_after_fill(slots, i, args[0]);
        let rest = given.drop_first();
        assert forall|k: int| 0 <= k < rest.len() implies {
            &&& #[trigger] rest[k] != wildcard()
            &&& labels.contains(rest[k])
            &&& next[labels.index_of(rest[k])] is None
        } by {
            assert(rest[k] == given[k + 1]);
            assert(given[k + 1] != given[0]);
            let p = labels.index_of(rest[k]);
            assert(labels[p] == rest[k]);
            assert(labels[i] == j);
            assert(p != i);
        }
        lemma_bind_fresh(labels, next, rest, args.drop_first());
    }
}

/// Partial application: for fresh labels split over two calls, the first
/// call succeeds and leaves as many slots unfilled as the second one fills,
/// and the two calls bind the slots as one call with all the labels does.
pub proof fn lemma_partial_application(
    labels: Seq<Seq<char>>,
    slots: Seq<Option<Constant>>,
    g1: Seq<Seq<char>>,
    a1: Seq<Constant>,
    g2: Seq<Seq<char>>,
    a2: Seq<Constant>,
)
    requires
        labels.len() == slots.len(),
        labels.no_duplicates(),
        g1.len() == a1.len(),
        g2.len() == a2.len(),
        g1.len() + g2.len() == unfilled_count(slots),
        fresh_labels(labels, slots, g1 + g2),
    ensures
        bind_labels(labels, slots, g1, a1) matches Ok(s1) && unfilled_count(s1) == g2.len() && bind_labels(
            labels,
            s1,
            g2,
            a2,
        ) == bind_labels(labels, slots, g1 + g2, a1 + a2),
        bind_labels(labels, slots, g1 + g2, a1 + a2) matches Ok(s) && unfilled_count(s) == 0,
{
    assert forall|k: int| 0 <= k < g1.len() implies {
        &&& #[trigger] g1[k] != wildcard()
        &&& labels.contains(g1[k])
        &&& slots[labels.index_of(g1[k])] is None
    } by {
        assert(g1[k] == (g1 + g2)[k]);
    }
    assert(g1.no_duplicates()) by {
        assert forall|x: int, y: int| 0 <= x < g1.len() && 0 <= y < g1.len() && x != y implies g1[x] != g1[y] by {
            assert(g1[x] == (g1 + g2)[x] && g1[y] == (g1 + g2)[y]);
        }
    }
    lemma_bind_fresh(labels, slots, g1, a1);
    lemma_bind_fresh(labels, slots, g1 + g2, a1 + a2);
    lemma_bind_in_two_calls(labels, slots, g1, a1, g2, a2);
}

/// Adding an integer and a real is defined in either order, is arithmetic
/// on doubles, and so yields a real whichever operand comes first.
pub proof fn lemma_mixed_add(a: i64, b: u64)
    ensures
        binary_defined(BinaryOp::Add, Constant::Integer(a), Constant::Real(b)),
        binary_defined(BinaryOp::Add, Constant::Real(b), Constant::Integer(a)),
        !mixed_comparison(BinaryOp::Add, Constant::Integer(a), Constant::Real(b)),
        !mixed_comparison(BinaryOp::Add, Constant::Real(b), Constant::Integer(a)),
        is_real_arith(BinaryOp::Add),
{
}

/// The sum of the stack effects of straight-line code.
pub open spec fn net_effect(code: Seq<Instruction>) -> int
    decreases code.len(),
{
    if code.len() == 0 {
        0
    } else {
        net_effect(code.drop_last()) + stack_effect(code.last().opcode)
    }
}

/// Whether code has no jumps.
pub open spec fn straight_line(code: Seq<Instruction>) -> bool {
    forall|i: int| 0 <= i < code.len() ==> !(#[trigger] code[i].opcode is Jmp || code[i].opcode is PopJmpIfFalse)
}

/// The stack height before each instruction of straight-line code, and at
/// its end.
pub open spec fn prefix_heights(code: Seq<Instruction>) -> Seq<int> {
    Seq::new((code.len() + 1) as nat, |i: int| net_effect(code.subrange(0, i)))
}

/// Whether straight-line code never takes more values than it has pushed.
pub open spec fn stays_above(code: Seq<Instruction>) -> bool {
    forall|i: int| 0 <= i < code.len() ==> prefix_heights(code)[i] >= stack_consumed(#[trigger] code[i].opcode)
}

proof fn lemma_prefix_step(code: Seq<Instruction>, i: int)
    requires
        0 <= i < code.len(),
    ensures
        prefix_heights(code)[i + 1] == prefix_heights(code)[i] + stack_effect(code[i].opcode),
{
    assert(code.subrange(0, i + 1).drop_last() =~= code.subrange(0, i));
}

/// `if cond { then } else { otherwise }`: the condition, a jump past the
/// then-branch when it is false, the then-branch, a jump past the
/// else-branch, and the else-branch.
pub open spec fn if_else(cond: Seq<Instruction>, then: Seq<Instruction>, otherwise: Seq<Instruction>, line: u32) -> Seq<
    Instruction,
> {
    let to_else = (cond.len() + 1 + then.len() + 1) as u32;
    let to_end = (cond.len() + 1 + then.len() + 1 + otherwise.len()) as u32;
    cond + seq![Instruction { line_number: line, opcode: Opcode::PopJmpIfFalse(to_else) }] + then + seq![
        Instruction { line_number: line, opcode: Opcode::Jmp(to_end) },
    ] + otherwise
}

/// Structured if/else built from a conditional jump and a jump is balanced,
/// so it leaves no residue on the stack, when the condition pushes one
/// value and each branch leaves the stack as it found it, none of them
/// taking more values than it pushed.
pub proof fn lemma_if_else_balanced(
    cond: Seq<Instruction>,
    then: Seq<Instruction>,
    otherwise: Seq<Instruction>,
    line: u32,
)
    requires
        straight_line(cond),
        straight_line(then),
        straight_line(otherwise),
        stays_above(cond),
        stays_above(then),
        stays_above(otherwise),
        net_effect(cond) == 1,
        net_effect(then) == 0,
        net_effect(otherwise) == 0,
        cond.len() + then.len() + otherwise.len() + 2 <= u32::MAX,
    ensures
        balanced(if_else(cond, then, otherwise, line)),
{
    let code = if_else(cond, then, otherwise, line);
    let hc = prefix_heights(cond);
    let ht = prefix_heights(then);
    let he = prefix_heights(otherwise);
    let h = hc + ht + he;
    let c = cond.len() as int;
    let t = then.len() as int;
    let e = otherwise.len() as int;
    let n = code.len() as int;
    assert(n == c + t + e + 2);
    assert(cond.subrange(0, c) =~= cond);
    assert(then.subrange(0, t) =~= then);
    assert(otherwise.subrange(0, e) =~= otherwise);
    assert(cond.subrange(0, 0).len() == 0);
    assert(then.subrange(0, 0).len() == 0);
    assert(otherwise.subrange(0, 0).len() == 0);
    assert(h[0] == hc[0]);
    assert(h[n] == he[e]);
    assert forall|i: int|
        0 <= i < n implies match #[trigger] code[i].opcode {
        Opcode::Jmp(target) => h[jump_target(target, n)] == h[i],
        Opcode::PopJmpIfFalse(target) => h[jump_target(target, n)] == h[i] - 1 && h[i + 1] == h[i] - 1,
        op => h[i + 1] == h[i] + stack_effect(op),
    } by {
        if i < c {
            assert(code[i] == cond[i]);
            lemma_prefix_step(cond, i);
            assert(h[i] == hc[i] && h[i + 1] == hc[i + 1]);
        } else if i == c {
            assert(code[i].opcode == Opcode::PopJmpIfFalse((c + 1 + t + 1) as u32));
            assert(h[i] == hc[c]);
            assert(h[i + 1] == ht[0]);
            assert(h[c + 1 + t + 1] == he[0]);
        } else if i < c + 1 + t {
            let j = i - c - 1;
            assert(code[i] == then[j]);
            lemma_prefix_step(then, j);
            assert(h[i] == ht[j] && h[i + 1] == ht[j + 1]);
        } else if i == c + 1 + t {
            assert(code[i].opcode == Opcode::Jmp(n as u32));
            assert(h[i] == ht[t]);
        } else {
            let j = i - c - t - 2;
            assert(code[i] == otherwise[j]);
            lemma_prefix_step(otherwise, j);
            assert(h[i] == he[j] && h[i + 1] == he[j + 1]);
        }
    }
    assert forall|i: int| 0 <= i < n implies h[i] >= stack_consumed(#[trigger] code[i].opcode) by {
        if i < c {
            assert(code[i] == cond[i] && h[i] == hc[i]);
        } else if i == c {
            assert(code[i].opcode == Opcode::PopJmpIfFalse((c + 1 + t + 1) as u32));
            assert(h[i] == hc[c]);
        } else if i < c + 1 + t {
            let j = i - c - 1;
            assert(code[i] == then[j] && h[i] == ht[j]);
        } else if i == c + 1 + t {
            assert(code[i].opcode == Opcode::Jmp(n as u32));
        } else {
            let j = i - c - t - 2;
            assert(code[i] == otherwise[j] && h[i] == he[j]);
        }
    }
    assert(heights_fit(code, h));
}

/// Whether a frame's code is `if cond { x } else { y }` over its first three
/// constants: push the condition, jump to the else-branch when it is false,
/// push `x` and jump to the end, or push `y`.
pub open spec fn is_if_else_frame(frame: StackFrame) -> bool {
    let code = frame.code@;
    &&& code.len() == 5
    &&& code[0].opcode == Opcode::Push(0)
    &&& code[1].opcode == Opcode::PopJmpIfFalse(4)
    &&& code[2].opcode == Opcode::Push(1)
    &&& code[3].opcode == Opcode::Jmp(5)
    &&& code[4].opcode == Opcode::Push(2)
    &&& frame.const_table@.len() == 3
    &&& frame.const_table@[0] is Boolean
}

/// A conditional jump and a jump give structured if/else: the run succeeds,
/// consumes the condition, runs exactly one branch, and leaves the stack
/// with that branch's value on top of what it found.
pub proof fn lemma_if_else_runs(
    d: nat,
    frame: StackFrame,
    names: Seq<String>,
    budget: nat,
    s0: Seq<Constant>,
    g0: Seq<Option<Constant>>,
    r: Result<(), (u32, HaneulError)>,
    s1: Seq<Constant>,
    g1: Seq<Option<Constant>>,
    u: nat,
)
    requires
        is_if_else_frame(frame),
        frame.slot_start <= s0.len(),
        budget >= 4,
        frame_result(d, frame, names, budget, s0, g0, r, s1, g1, u),
    ensures
        r is Ok,
        s1 == s0.push(
            if frame.const_table@[0] == Constant::Boolean(true) {
                frame.const_table@[1]
            } else {
                frame.const_table@[2]
            },
        ),
        g1 == g0,
{
    let t = choose|t: Seq<RunState>| run_by(t) && trace_ok(d, frame, names, budget, s0, g0, r, s1, g1, u, t);
    let c = frame.const_table@;
    let cond = c[0];
    let s_a = s0.push(cond);
    // From the start, every state is forced; no state before the end can fail.
    assert(t[0] == RunState { ip: 0, stack: s0, globals: g0, used: 0 });
    if t.len() == 1 {
        assert(step_fails(d, frame, names, budget, t[0], r));
        assert(false);
    }
    assert(step_to(d, frame, names, budget, t[0], t[1]));
    assert(t[1].ip == 1 && t[1].stack == s_a && t[1].globals == g0 && t[1].used == 1);
    if t.len() == 2 {
        assert(step_fails(d, frame, names, budget, t[1], r));
        assert(false);
    }
    assert(step_to(d, frame, names, budget, t[1], t[2]));
    assert(s_a.drop_last() =~= s0);
    assert(t[2].stack == s0 && t[2].globals == g0 && t[2].used == 2);
    if cond == Constant::Boolean(true) {
        assert(t[2].ip == 2);
        if t.len() == 3 {
            assert(step_fails(d, frame, names, budget, t[2], r));
            assert(false);
        }
        assert(step_to(d, frame, names, budget, t[2], t[3]));
        assert(t[3].ip == 3 && t[3].stack == s0.push(c[1]) && t[3].globals == g0);
        if t.len() == 4 {
            if r is Err {
                assert(step_fails(d, frame, names, budget, t[3], r));
            }
            assert(false);
        }
        assert(step_to(d, frame, names, budget, t[3], t[4]));
        assert(t[4].ip == 5 && t[4].stack == s0.push(c[1]) && t[4].globals == g0);
        if t.len() > 5 {
            assert(step_to(d, frame, names, budget, t[4], t[5]));
            assert(false);
        }
    } else {
        assert(t[2].ip == 4);
        if t.len() == 3 {
            assert(step_fails(d, frame, names, budget, t[2], r));
            assert(false);
        }
        assert(step_to(d, frame, names, budget, t[2], t[3]));
        assert(t[3].ip == 5 && t[3].stack == s0.push(c[2]) && t[3].globals == g0);
        if t.len() > 4 {
            assert(step_to(d, frame, names, budget, t[3], t[4]));
            assert(false);
        }
    }
    if r is Err {
        assert(step_fails(d, frame, names, budget, t.last(), r));
        assert(false);
    }
}

/// Whether a frame's code pushes its first two constants and applies `op`.
pub open spec fn is_binary_frame(frame: StackFrame, op: BinaryOp) -> bool {
    let code = frame.code@;
    &&& code.len() == 3
    &&& code[0].opcode == Opcode::Push(0)
    &&& code[1].opcode == Opcode::Push(1)
    &&& code[2].opcode == Opcode::BinaryOp(op)
    &&& frame.const_table@.len() == 2
}

/// Running `lhs op rhs` on two constants, where the operator is defined on
/// them and is not a comparison of an integer with a real: the run succeeds
/// and pushes one value; it is the exact result where no double arithmetic
/// is involved, and a real where a real operand meets `+ - * /`, whichever
/// operand it is.
pub proof fn lemma_binary_runs(
    d: nat,
    frame: StackFrame,
    op: BinaryOp,
    names: Seq<String>,
    budget: nat,
    s0: Seq<Constant>,
    g0: Seq<Option<Constant>>,
    r: Result<(), (u32, HaneulError)>,
    s1: Seq<Constant>,
    g1: Seq<Option<Constant>>,
    u: nat,
)
    requires
        is_binary_frame(frame, op),
        frame.slot_start <= s0.len(),
        binary_defined(op, frame.const_table@[0], frame.const_table@[1]),
        !mixed_comparison(op, frame.const_table@[0], frame.const_table@[1]),
        budget >= 3,
        frame_result(d, frame, names, budget, s0, g0, r, s1, g1, u),
    ensures
        r is Ok,
        g1 == g0,
        s1.len() == s0.len() + 1,
        s1.drop_last() == s0,
        exact_binary(op, frame.const_table@[0], frame.const_table@[1]) matches Some(v) ==> s1.last() == v,
        is_real_arith(op) && (frame.const_table@[0] is Real || frame.const_table@[1] is Real) ==> s1.last() is Real,
{
    let t = choose|t: Seq<RunState>| run_by(t) && trace_ok(d, frame, names, budget, s0, g0, r, s1, g1, u, t);
    let c = frame.const_table@;
    assert(t[0] == RunState { ip: 0, stack: s0, globals: g0, used: 0 });
    if t.len() == 1 {
        assert(step_fails(d, frame, names, budget, t[0], r));
        assert(false);
    }
    assert(step_to(d, frame, names, budget, t[0], t[1]));
    assert(t[1].ip == 1 && t[1].stack == s0.push(c[0]) && t[1].globals == g0);
    if t.len() == 2 {
        assert(step_fails(d, frame, names, budget, t[1], r));
        assert(false);
    }
    assert(step_to(d, frame, names, budget, t[1], t[2]));
    let s2 = s0.push(c[0]).push(c[1]);
    assert(t[2].ip == 2 && t[2].stack == s2 && t[2].globals == g0);
    assert(s2[s2.len() - 2] == c[0] && s2[s2.len() - 1] == c[1]);
    if t.len() == 3 {
        assert(step_fails(d, frame, names, budget, t[2], r));
        assert(false);
    }
    assert(step_to(d, frame, names, budget, t[2], t[3]));
    assert(s2.subrange(0, s2.len() - 2) =~= s0);
    assert(t[3].ip == 3 && t[3].globals == g0);
    if t.len() > 4 {
        assert(step_to(d, frame, names, budget, t[3], t[4]));
        assert(false);
    }
    if r is Err {
        assert(step_fails(d, frame, names, budget, t.last(), r));
        assert(false);
    }
    assert(s1 == t[3].stack);
}

/// Partial application through the machine's calls: when a first call binds
/// some fresh labels of a function and leaves it partly applied, a second
/// call binding the rest ends in exactly the states that one call binding
/// all the labels ends in, from the same stack.
pub proof fn lemma_partial_calls(
    d: nat,
    names: Seq<String>,
    budget: nat,
    base: int,
    m: JosaMap,
    f: crate::constant::FuncObject,
    g1: Seq<Seq<char>>,
    g2: Seq<Seq<char>>,
    s0: Seq<Constant>,
    g0: Seq<Option<Constant>>,
    sm: Seq<Constant>,
    gm: Seq<Option<Constant>>,
    s1: Seq<Constant>,
    gl: Seq<Option<Constant>>,
    u: nat,
)
    requires
        m.wf(),
        s0.len() > g1.len() + g2.len(),
        s0.last() == (Constant::Function { josa_map: m, func_object: f }),
        g2.len() >= 1,
        g1.len() + g2.len() == m.residual(),
        fresh_labels(m.labels(), m.slots(), g1 + g2),
        s0.len() - 1 - g1.len() - g2.len() >= base,
        call_result(d, names, budget, base, g1, s0, g0, sm, gm, 0),
    ensures
        call_result(d, names, budget, base, g2, sm, gm, s1, gl, u) == call_result(d, names, budget, base, g1 + g2, s0, g0, s1, gl, u),
{
    let k = g1.len();
    let j = g2.len();
    let all = top_args(s0.drop_last(), (k + j) as int);
    let a1 = top_args(s0.drop_last(), k as int);
    let below = s0.subrange(0, s0.len() - 1 - k - j);
    assert(all.subrange(0, k as int) =~= a1);
    let a2 = all.subrange(k as int, (k + j) as int);
    assert(a1 + a2 =~= all);
    lemma_partial_application(m.labels(), m.slots(), g1, a1, g2, a2);
    let sl1 = crate::josa::bind_labels(m.labels(), m.slots(), g1, a1)->Ok_0;
    assert(sm.last() matches Constant::Function { josa_map: m2, func_object: f2 } && m2.labels() == m.labels() && m2.slots() == sl1 && f2 == f);
    assert(sm.drop_last() =~= s0.subrange(0, s0.len() - 1 - k));
    assert(top_args(sm.drop_last(), j as int) =~= a2);
    assert(sm.subrange(0, sm.len() - 1 - j) =~= below);
    assert((g1 + g2).len() == k + j);
}

/// A call leaves exactly one value: a frame that is one call instruction,
/// when it succeeds, replaces the callee and its arguments with one value
/// and leaves the stack below them as it was.
pub proof fn lemma_call_leaves_one_value(
    d: nat,
    frame: StackFrame,
    names: Seq<String>,
    budget: nat,
    s0: Seq<Constant>,
    g0: Seq<Option<Constant>>,
    r: Result<(), (u32, HaneulError)>,
    s1: Seq<Constant>,
    g1: Seq<Option<Constant>>,
    u: nat,
)
    requires
        frame.code@.len() == 1,
        frame.code@[0].opcode is Call,
        frame_result(d, frame, names, budget, s0, g0, r, s1, g1, u),
        r is Ok,
    ensures
        ({
            let g = frame.code@[0].opcode->Call_0@.len();
            &&& s1.len() + g == s0.len()
            &&& s1.drop_last() == s0.subrange(0, s0.len() - 1 - g)
        }),
{
    let t = choose|t: Seq<RunState>| run_by(t) && trace_ok(d, frame, names, budget, s0, g0, r, s1, g1, u, t);
    assert(t[0] == RunState { ip: 0, stack: s0, globals: g0, used: 0 });
    assert(t.len() >= 2);
    assert(step_to(d, frame, names, budget, t[0], t[1]));
    if t.len() > 2 {
        assert(step_to(d, frame, names, budget, t[1], t[2]));
        assert(false);
    }
    assert(s1 == t[1].stack);
}

} // verus!
