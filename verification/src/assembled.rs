use vstd::prelude::*;

use crate::assembly::{
    add_string, asm_args, asm_expr, asm_function, asm_initializer, asm_program, asm_stmt,
    asm_stmts, binary_ops, define_if_global, emit, emit_indexed, emit_string, load,
    patch, pop_locals, short_or_long, store, then_emit, Asm, AsmTables,
};
use crate::compile::{
    asm_bodies, assembled, body_start, empty_state, executable_of, fresh, resolved_functions,
    resolved_tables,
};
use crate::executable::Executable;
use crate::name_pass::NameResolutionOutput;
use crate::parser::Ast;
use crate::ast::{expr_span_start, ExprStmt, PrintStmt, BinaryExpr, BinaryOperator, Expr, LiteralExpr, UnaryExpr, Function, Identifier, Literal, Program, Stmt, UnaryOperator};
use crate::name_resolution::LocalDeclaration;
use crate::codec::{le_bytes, pow256, DecodeError};
use crate::op::{op_decode, op_encoding, operands_fit, Op};
use crate::punctuated::{punctuated_items, Punctuated};
use crate::span::Span;

verus! {

/// The encodings of `ops`, one after another.
pub open spec fn encodings(ops: Seq<Op>) -> Seq<u8>
    decreases ops.len(),
{
    if ops.len() == 0 {
        seq![]
    } else {
        encodings(ops.drop_last()) + op_encoding(ops.last())
    }
}

/// Every instruction's operands fit their widths.
pub open spec fn all_fit(ops: Seq<Op>) -> bool {
    forall|i: int| 0 <= i < ops.len() ==> #[trigger] operands_fit(ops[i])
}

/// Where the `k`-th instruction of `ops` starts, after `base` bytes.
pub open spec fn boundary(base: int, ops: Seq<Op>, k: int) -> int {
    base + encodings(ops.take(k)).len()
}

pub proof fn lemma_encodings_add(a: Seq<Op>, b: Seq<Op>)
    ensures
        encodings(a + b) == encodings(a) + encodings(b),
    decreases b.len(),
{
    if b.len() == 0 {
        assert(a + b =~= a);
        assert(encodings(b) =~= Seq::<u8>::empty());
        assert(encodings(a) + encodings(b) =~= encodings(a));
    } else {
        lemma_encodings_add(a, b.drop_last());
        assert((a + b).drop_last() =~= a + b.drop_last());
        assert((a + b).last() == b.last());
        assert(encodings(a + b) =~= encodings(a) + encodings(b));
    }
}

pub proof fn lemma_encodings_one(op: Op)
    ensures
        encodings(seq![op]) == op_encoding(op),
{
    assert(seq![op].drop_last() =~= Seq::<Op>::empty());
    assert(seq![op].last() == op);
    assert(encodings(Seq::<Op>::empty()) =~= Seq::<u8>::empty());
    assert(Seq::<u8>::empty() + op_encoding(op) =~= op_encoding(op));
}

proof fn lemma_all_fit_add(a: Seq<Op>, b: Seq<Op>)
    requires
        all_fit(a),
        all_fit(b),
    ensures
        all_fit(a + b),
{
    assert forall|i: int| 0 <= i < (a + b).len() implies #[trigger] operands_fit((a + b)[i]) by {
        if i < a.len() {
            assert((a + b)[i] == a[i]);
        } else {
            assert((a + b)[i] == b[i - a.len()]);
        }
    }
}

/// The `k`-th instruction of well-formed code decodes where it starts, and
/// ends where the next one starts.
pub proof fn lemma_encodings_decode(prefix: Seq<u8>, ops: Seq<Op>, suffix: Seq<u8>, k: int)
    requires
        all_fit(ops),
        0 <= k < ops.len(),
    ensures
        op_decode(prefix + encodings(ops) + suffix, boundary(prefix.len() as int, ops, k)) == (
            Ok::<Op, DecodeError>(ops[k]),
            boundary(prefix.len() as int, ops, k + 1),
        ),
{
    let front = ops.take(k);
    let rest = ops.skip(k + 1);
    assert(ops =~= front + seq![ops[k]] + rest);
    lemma_encodings_add(front + seq![ops[k]], rest);
    lemma_encodings_add(front, seq![ops[k]]);
    lemma_encodings_one(ops[k]);
    assert(ops.take(k + 1) =~= front + seq![ops[k]]);
    assert(operands_fit(ops[k]));
    crate::op::lemma_op_roundtrip(ops[k], prefix + encodings(front), encodings(rest) + suffix);
    assert(prefix + encodings(ops) + suffix =~= (prefix + encodings(front)) + op_encoding(ops[k]) + (encodings(
        rest,
    ) + suffix));
}

/// An instruction with its operands cut to the bytes they are written in.
pub open spec fn fitted(op: Op) -> Op {
    match op {
        Op::Call { arity } => Op::Call { arity: (arity % 256) as usize },
        Op::Loop { distance } => Op::Loop { distance: (distance % 65536) as usize },
        _ => op,
    }
}

/// `after` holds the code of `before` followed by the encodings of `ops`,
/// whose operands fit their widths.
pub open spec fn appends(before: Asm, after: Asm, ops: Seq<Op>) -> bool {
    &&& all_fit(ops)
    &&& after.code == before.code + encodings(ops)
}

/// A forward jump, on a false condition or always.
pub open spec fn jump(if_false: bool, distance: usize) -> Op {
    if if_false {
        Op::JumpIfFalse { distance }
    } else {
        Op::Jump { distance }
    }
}

proof fn lemma_pow256_values()
    ensures
        pow256(1) == 256,
        pow256(2) == 65536,
        pow256(3) == 16777216,
{
    reveal_with_fuel(pow256, 4);
}

/// Cutting an instruction's operands to their widths changes nothing of
/// its encoding.
proof fn lemma_fitted(op: Op)
    ensures
        op_encoding(fitted(op)) == op_encoding(op),
        (op is Call || op is Loop) ==> operands_fit(fitted(op)),
{
    lemma_pow256_values();
    reveal_with_fuel(le_bytes, 3);
    match op {
        Op::Call { arity } => {
            assert((arity % 256) % 256 == arity % 256) by (bit_vector);
            assert(le_bytes((arity % 256) as usize as int, 1) =~= le_bytes(arity as int, 1));
        },
        Op::Loop { distance } => {
            let d = distance;
            assert((d % 65536) % 256 == d % 256 && ((d % 65536) / 256) % 256 == (d / 256) % 256)
                by (bit_vector);
            assert(le_bytes((d % 65536) as usize as int, 2) =~= le_bytes(d as int, 2));
        },
        _ => {},
    }
}

proof fn lemma_nothing(a: Asm)
    ensures
        appends(a, a, seq![]),
{
    assert(encodings(seq![]) =~= Seq::<u8>::empty());
    assert(a.code + Seq::<u8>::empty() =~= a.code);
}

proof fn lemma_chain(a: Asm, b: Asm, c: Asm, x: Seq<Op>, y: Seq<Op>)
    requires
        appends(a, b, x),
        appends(b, c, y),
    ensures
        appends(a, c, x + y),
{
    lemma_encodings_add(x, y);
    lemma_all_fit_add(x, y);
    assert(c.code =~= a.code + encodings(x + y));
}

proof fn lemma_emit(a: Asm, op: Op, span: Span)
    requires
        emit(a, op, span) is Some,
        operands_fit(fitted(op)),
    ensures
        appends(a, emit(a, op, span).unwrap(), seq![fitted(op)]),
{
    lemma_fitted(op);
    lemma_encodings_one(fitted(op));
    assert(seq![fitted(op)][0] == fitted(op));
}

proof fn lemma_emit_after(a: Asm, a1: Asm, ops: Seq<Op>, op: Op, span: Span)
    requires
        appends(a, a1, ops),
        emit(a1, op, span) is Some,
        operands_fit(fitted(op)),
    ensures
        appends(a, emit(a1, op, span).unwrap(), ops + seq![fitted(op)]),
{
    lemma_emit(a1, op, span);
    lemma_chain(a, a1, emit(a1, op, span).unwrap(), ops, seq![fitted(op)]);
}

proof fn lemma_emit_indexed(a: Asm, index: int, short: Op, long: Op, span: Span)
    requires
        emit_indexed(a, index, short, long, span) is Some,
        0 <= index <= crate::codec::U24::MAX ==> operands_fit(fitted(short_or_long(index, short, long))),
    ensures
        appends(a, emit_indexed(a, index, short, long, span).unwrap(), seq![fitted(short_or_long(index, short, long))]),
{
    lemma_emit(a, short_or_long(index, short, long), span);
}

proof fn lemma_all_fit_split(a: Seq<Op>, b: Seq<Op>)
    requires
        all_fit(a + b),
    ensures
        all_fit(a),
        all_fit(b),
{
    assert forall|i: int| 0 <= i < a.len() implies #[trigger] operands_fit(a[i]) by {
        assert((a + b)[i] == a[i]);
    }
    assert forall|i: int| 0 <= i < b.len() implies #[trigger] operands_fit(b[i]) by {
        assert((a + b)[a.len() + i] == b[i]);
    }
}

/// Patching a jump that was appended as `jump(if_false, 0)` writes its
/// distance into it: the code reads as the same instructions with that
/// jump's distance filled in.
proof fn lemma_patch(a: Asm, m: Asm, b: Asm, front: Seq<Op>, if_false: bool, back: Seq<Op>)
    requires
        appends(a, b, front + seq![jump(if_false, 0)] + back),
        appends(m, b, back),
        patch(b, m.code.len() as int) is Some,
    ensures
        appends(
            a,
            patch(b, m.code.len() as int).unwrap(),
            front + seq![jump(if_false, (b.code.len() - m.code.len()) as usize)] + back,
        ),
        patch(b, m.code.len() as int).unwrap().code.len() == b.code.len(),
{
    lemma_pow256_values();
    reveal_with_fuel(le_bytes, 3);
    let d = (b.code.len() - m.code.len()) as usize;
    let j0 = jump(if_false, 0);
    let jd = jump(if_false, d);
    lemma_encodings_add(front + seq![j0], back);
    lemma_encodings_add(front, seq![j0]);
    lemma_encodings_one(j0);
    lemma_encodings_add(front + seq![jd], back);
    lemma_encodings_add(front, seq![jd]);
    lemma_encodings_one(jd);
    lemma_all_fit_split(front + seq![j0], back);
    lemma_all_fit_split(front, seq![j0]);
    let pre = a.code + encodings(front);
    assert(b.code =~= pre + op_encoding(j0) + encodings(back));
    assert(op_encoding(j0).len() == 3);
    let target = m.code.len() as int;
    assert(target == pre.len() + 3);
    assert(d <= 65535);
    assert((d / 256) % 256 == d / 256) by (bit_vector)
        requires
            d <= 65535,
    ;
    let patched = patch(b, target).unwrap();
    assert(patched.code =~= pre + op_encoding(jd) + encodings(back));
    assert(operands_fit(jd));
    assert(seq![jd][0] == jd);
    lemma_all_fit_add(front, seq![jd]);
    lemma_all_fit_add(front + seq![jd], back);
    assert(patched.code =~= a.code + encodings(front + seq![jd] + back));
}

proof fn lemma_emit_string(a: Asm, s: Seq<u8>, kind: int, span: Span) -> (ops: Seq<Op>)
    requires
        emit_string(a, s, kind, span) is Some,
    ensures
        appends(a, emit_string(a, s, kind, span).unwrap(), ops),
{
    lemma_pow256_values();
    let (a1, c) = add_string(a, s);
    let cu = c as usize;
    if kind == 0 {
        let (sh, lo) = (Op::Constant { constant_index: cu }, Op::ConstantLong { constant_index: cu });
        lemma_emit_indexed(a1, c, sh, lo, span);
        seq![fitted(short_or_long(c, sh, lo))]
    } else if kind == 1 {
        let (sh, lo) = (Op::DefineGlobal { constant_index: cu }, Op::DefineGlobalLong { constant_index: cu });
        lemma_emit_indexed(a1, c, sh, lo, span);
        seq![fitted(short_or_long(c, sh, lo))]
    } else if kind == 2 {
        let (sh, lo) = (Op::GetGlobal { constant_index: cu }, Op::GetGlobalLong { constant_index: cu });
        lemma_emit_indexed(a1, c, sh, lo, span);
        seq![fitted(short_or_long(c, sh, lo))]
    } else if kind == 3 {
        let (sh, lo) = (Op::SetGlobal { constant_index: cu }, Op::SetGlobalLong { constant_index: cu });
        lemma_emit_indexed(a1, c, sh, lo, span);
        seq![fitted(short_or_long(c, sh, lo))]
    } else if kind == 4 {
        let (sh, lo) = (Op::GetField { constant_index: cu }, Op::GetFieldLong { constant_index: cu });
        lemma_emit_indexed(a1, c, sh, lo, span);
        seq![fitted(short_or_long(c, sh, lo))]
    } else {
        let (sh, lo) = (Op::SetField { constant_index: cu }, Op::SetFieldLong { constant_index: cu });
        lemma_emit_indexed(a1, c, sh, lo, span);
        seq![fitted(short_or_long(c, sh, lo))]
    }
}

proof fn lemma_load(t: AsmTables, a: Asm, index: usize, span: Span, name: Option<Seq<u8>>) -> (ops: Seq<Op>)
    requires
        load(t, a, index, span, name) is Some,
    ensures
        appends(a, load(t, a, index, span, name).unwrap(), ops),
{
    lemma_pow256_values();
    match t.resolutions[index as int] {
        crate::name_resolution::Resolution::Local { local_index } => {
            let (sh, lo) = (Op::GetLocal { local_index }, Op::GetLocalLong { local_index });
            lemma_emit_indexed(a, local_index as int, sh, lo, span);
            seq![fitted(short_or_long(local_index as int, sh, lo))]
        },
        crate::name_resolution::Resolution::Upvalue { upvalue_index } => {
            let (sh, lo) = (Op::GetUpvalue { upvalue_index }, Op::GetUpvalueLong { upvalue_index });
            lemma_emit_indexed(a, upvalue_index as int, sh, lo, span);
            seq![fitted(short_or_long(upvalue_index as int, sh, lo))]
        },
        crate::name_resolution::Resolution::Global => lemma_emit_string(a, name.unwrap(), 2, span),
    }
}

proof fn lemma_store(t: AsmTables, a: Asm, index: usize, name_span: Span, equal: Span, name: Seq<u8>) -> (ops: Seq<Op>)
    requires
        store(t, a, index, name_span, equal, name) is Some,
    ensures
        appends(a, store(t, a, index, name_span, equal, name).unwrap(), ops),
{
    lemma_pow256_values();
    match t.resolutions[index as int] {
        crate::name_resolution::Resolution::Local { local_index } => {
            let (sh, lo) = (Op::SetLocal { local_index }, Op::SetLocalLong { local_index });
            lemma_emit_indexed(a, local_index as int, sh, lo, name_span);
            seq![fitted(short_or_long(local_index as int, sh, lo))]
        },
        crate::name_resolution::Resolution::Upvalue { upvalue_index } => {
            let (sh, lo) = (Op::SetUpvalue { upvalue_index }, Op::SetUpvalueLong { upvalue_index });
            lemma_emit_indexed(a, upvalue_index as int, sh, lo, name_span);
            seq![fitted(short_or_long(upvalue_index as int, sh, lo))]
        },
        crate::name_resolution::Resolution::Global => lemma_emit_string(a, name, 3, equal),
    }
}

proof fn lemma_two(a: Asm, first: Op, second: Op, span: Span)
    requires
        emit(a, first, span) is Some,
        emit(emit(a, first, span).unwrap(), second, span) is Some,
        operands_fit(fitted(first)),
        operands_fit(fitted(second)),
    ensures
        appends(a, emit(emit(a, first, span).unwrap(), second, span).unwrap(), seq![fitted(first)] + seq![fitted(second)]),
{
    lemma_emit(a, first, span);
    lemma_emit_after(a, emit(a, first, span).unwrap(), seq![fitted(first)], second, span);
}

proof fn lemma_binary_ops(a: Asm, op: BinaryOperator) -> (ops: Seq<Op>)
    requires
        binary_ops(a, op) is Some,
    ensures
        appends(a, binary_ops(a, op).unwrap(), ops),
{
    match op {
        BinaryOperator::Greater(s) => {
            lemma_emit(a, Op::Greater, s);
            seq![fitted(Op::Greater)]
        },
        BinaryOperator::GreaterEqual(s) => {
            lemma_two(a, Op::Less, Op::Not, s);
            seq![fitted(Op::Less)] + seq![fitted(Op::Not)]
        },
        BinaryOperator::Less(s) => {
            lemma_emit(a, Op::Less, s);
            seq![fitted(Op::Less)]
        },
        BinaryOperator::LessEqual(s) => {
            lemma_two(a, Op::Greater, Op::Not, s);
            seq![fitted(Op::Greater)] + seq![fitted(Op::Not)]
        },
        BinaryOperator::NotEqual(s) => {
            lemma_two(a, Op::Equal, Op::Not, s);
            seq![fitted(Op::Equal)] + seq![fitted(Op::Not)]
        },
        BinaryOperator::Equal(s) => {
            lemma_emit(a, Op::Equal, s);
            seq![fitted(Op::Equal)]
        },
        BinaryOperator::Subtract(s) => {
            lemma_emit(a, Op::Subtract, s);
            seq![fitted(Op::Subtract)]
        },
        BinaryOperator::Add(s) => {
            lemma_emit(a, Op::Add, s);
            seq![fitted(Op::Add)]
        },
        BinaryOperator::Divide(s) => {
            lemma_emit(a, Op::Divide, s);
            seq![fitted(Op::Divide)]
        },
        BinaryOperator::Multiply(s) => {
            lemma_emit(a, Op::Multiply, s);
            seq![fitted(Op::Multiply)]
        },
        _ => {
            lemma_nothing(a);
            seq![]
        },
    }
}

/// The code appended for an expression is a run of whole instructions.
#[verifier::spinoff_prover]
proof fn lemma_expr_ops(t: AsmTables, a: Asm, e: Expr) -> (ops: Seq<Op>)
    requires
        asm_expr(t, a, e) is Some,
    ensures
        appends(a, asm_expr(t, a, e).unwrap(), ops),
    decreases e, 0int,
{
    lemma_pow256_values();
    match e {
        Expr::Literal(x) => match x.literal {
            Literal::Float { span, value } => {
                let a1 = Asm { constants: a.constants.push((0, value@, 0usize)), ..a };
                let c = a.constants.len() as int;
                let (sh, lo) = (Op::Constant { constant_index: c as usize }, Op::ConstantLong { constant_index: c as usize });
                lemma_emit_indexed(a1, c, sh, lo, span);
                seq![fitted(short_or_long(c, sh, lo))]
            },
            Literal::String { span, value } => lemma_emit_string(a, value@, 0, span),
            Literal::True(span) => {
                lemma_emit(a, Op::True, span);
                seq![fitted(Op::True)]
            },
            Literal::False(span) => {
                lemma_emit(a, Op::False, span);
                seq![fitted(Op::False)]
            },
            Literal::Nil(span) => {
                lemma_emit(a, Op::Nil, span);
                seq![fitted(Op::Nil)]
            },
        },
        Expr::Unary(x) => {
            let o1 = lemma_expr_ops(t, a, *x.inner);
            let a1 = asm_expr(t, a, *x.inner).unwrap();
            match x.operator {
                UnaryOperator::Not(s) => {
                    lemma_emit_after(a, a1, o1, Op::Not, s);
                    o1 + seq![fitted(Op::Not)]
                },
                UnaryOperator::Negate(s) => {
                    lemma_emit_after(a, a1, o1, Op::Negate, s);
                    o1 + seq![fitted(Op::Negate)]
                },
            }
        },
        Expr::Binary(x) => match x.operator {
            BinaryOperator::And(s) => {
                let o1 = lemma_expr_ops(t, a, *x.left);
                let a1 = asm_expr(t, a, *x.left).unwrap();
                let j0 = Op::JumpIfFalse { distance: 0 };
                let a2 = emit(a1, j0, s).unwrap();
                lemma_emit_after(a, a1, o1, j0, s);
                let a3 = emit(a2, Op::Pop, s).unwrap();
                lemma_emit(a2, Op::Pop, s);
                let o4 = lemma_expr_ops(t, a3, *x.right);
                let a4 = asm_expr(t, a3, *x.right).unwrap();
                let back = seq![fitted(Op::Pop)] + o4;
                lemma_chain(a2, a3, a4, seq![fitted(Op::Pop)], o4);
                lemma_chain(a, a2, a4, o1 + seq![fitted(j0)], back);
                assert(o1 + seq![fitted(j0)] + back =~= o1 + seq![jump(true, 0)] + back);
                lemma_patch(a, a2, a4, o1, true, back);
                o1 + seq![jump(true, (a4.code.len() - a2.code.len()) as usize)] + back
            },
            BinaryOperator::Or(s) => {
                let o1 = lemma_expr_ops(t, a, *x.left);
                let a1 = asm_expr(t, a, *x.left).unwrap();
                let j0 = Op::JumpIfFalse { distance: 0 };
                let k0 = Op::Jump { distance: 0 };
                let a2 = emit(a1, j0, s).unwrap();
                lemma_emit_after(a, a1, o1, j0, s);
                let a3 = emit(a2, k0, s).unwrap();
                lemma_emit(a2, k0, s);
                lemma_chain(a, a2, a3, o1 + seq![fitted(j0)], seq![fitted(k0)]);
                assert(o1 + seq![fitted(j0)] + seq![fitted(k0)] =~= o1 + seq![jump(true, 0)] + seq![fitted(k0)]);
                lemma_patch(a, a2, a3, o1, true, seq![fitted(k0)]);
                let a4 = patch(a3, a2.code.len() as int).unwrap();
                let front = o1 + seq![jump(true, (a3.code.len() - a2.code.len()) as usize)];
                let o5 = lemma_expr_ops(t, a4, *x.right);
                let a5 = asm_expr(t, a4, *x.right).unwrap();
                lemma_chain(a, a4, a5, front + seq![fitted(k0)], o5);
                assert(front + seq![fitted(k0)] + o5 =~= front + seq![jump(false, 0)] + o5);
                lemma_patch(a, a4, a5, front, false, o5);
                front + seq![jump(false, (a5.code.len() - a4.code.len()) as usize)] + o5
            },
            _ => {
                let o1 = lemma_expr_ops(t, a, *x.left);
                let a1 = asm_expr(t, a, *x.left).unwrap();
                let o2 = lemma_expr_ops(t, a1, *x.right);
                let a2 = asm_expr(t, a1, *x.right).unwrap();
                let o3 = lemma_binary_ops(a2, x.operator);
                lemma_chain(a, a1, a2, o1, o2);
                lemma_chain(a, a2, binary_ops(a2, x.operator).unwrap(), o1 + o2, o3);
                o1 + o2 + o3
            },
        },
        Expr::Grouping(x) => lemma_expr_ops(t, a, *x.inner),
        Expr::Variable(x) => lemma_load(
            t,
            a,
            x.name.decoration.spec_index(),
            x.name.identifier.span,
            Some(x.name.identifier.value@),
        ),
        Expr::Assign(x) => {
            let o1 = lemma_expr_ops(t, a, *x.expr);
            let a1 = asm_expr(t, a, *x.expr).unwrap();
            let o2 = lemma_store(
                t,
                a1,
                x.name.decoration.spec_index(),
                x.name.identifier.span,
                x.equal,
                x.name.identifier.value@,
            );
            lemma_chain(
                a,
                a1,
                store(t, a1, x.name.decoration.spec_index(), x.name.identifier.span, x.equal, x.name.identifier.value@).unwrap(),
                o1,
                o2,
            );
            o1 + o2
        },
        Expr::Call(x) => {
            let span = Span::spec_new(expr_span_start(*x.target), x.rparen.spec_end());
            let arity = punctuated_items(x.arguments).len();
            let a1 = emit(a, Op::PushFrame, span).unwrap();
            lemma_emit(a, Op::PushFrame, span);
            let o2 = lemma_expr_ops(t, a1, *x.target);
            let a2 = asm_expr(t, a1, *x.target).unwrap();
            lemma_chain(a, a1, a2, seq![fitted(Op::PushFrame)], o2);
            let o3 = lemma_args_ops(t, a2, x.arguments, 0);
            let a3 = asm_args(t, a2, x.arguments, 0).unwrap();
            lemma_chain(a, a2, a3, seq![fitted(Op::PushFrame)] + o2, o3);
            let call = Op::Call { arity: arity as usize };
            assert(operands_fit(fitted(call))) by {
                lemma_fitted(call);
            }
            lemma_emit_after(a, a3, seq![fitted(Op::PushFrame)] + o2 + o3, call, span);
            seq![fitted(Op::PushFrame)] + o2 + o3 + seq![fitted(call)]
        },
        Expr::Get(x) => {
            let o1 = lemma_expr_ops(t, a, *x.target);
            let a1 = asm_expr(t, a, *x.target).unwrap();
            let o2 = lemma_emit_string(a1, x.field.value@, 4, x.field.span);
            lemma_chain(a, a1, emit_string(a1, x.field.value@, 4, x.field.span).unwrap(), o1, o2);
            o1 + o2
        },
        Expr::SetField(x) => {
            let o1 = lemma_expr_ops(t, a, *x.expr);
            let a1 = asm_expr(t, a, *x.expr).unwrap();
            let o2 = lemma_expr_ops(t, a1, *x.target);
            let a2 = asm_expr(t, a1, *x.target).unwrap();
            let o3 = lemma_emit_string(a2, x.field.value@, 5, x.field.span);
            lemma_chain(a, a1, a2, o1, o2);
            lemma_chain(a, a2, emit_string(a2, x.field.value@, 5, x.field.span).unwrap(), o1 + o2, o3);
            o1 + o2 + o3
        },
        Expr::This(x) => lemma_load(t, a, x.decoration.spec_index(), x.this, None),
        Expr::Super(_) => {
            lemma_nothing(a);
            seq![]
        },
    }
}

proof fn lemma_args_ops(t: AsmTables, a: Asm, p: Punctuated<Expr, Span>, i: int) -> (ops: Seq<Op>)
    requires
        asm_args(t, a, p, i) is Some,
    ensures
        appends(a, asm_args(t, a, p, i).unwrap(), ops),
    decreases p, p.values@.len() + 1 - i,
{
    if 0 <= i < p.values@.len() {
        let o1 = lemma_expr_ops(t, a, p.values@[i].0);
        let a1 = asm_expr(t, a, p.values@[i].0).unwrap();
        let o2 = lemma_args_ops(t, a1, p, i + 1);
        lemma_chain(a, a1, asm_args(t, a1, p, i + 1).unwrap(), o1, o2);
        o1 + o2
    } else if i == p.values@.len() {
        match p.last {
            Some(b) => lemma_expr_ops(t, a, *b),
            None => {
                lemma_nothing(a);
                seq![]
            },
        }
    } else {
        lemma_nothing(a);
        seq![]
    }
}

proof fn lemma_pop_locals(a: Asm, locals: Seq<LocalDeclaration>, span: Span) -> (ops: Seq<Op>)
    requires
        pop_locals(a, locals, span) is Some,
    ensures
        appends(a, pop_locals(a, locals, span).unwrap(), ops),
    decreases locals.len(),
{
    if locals.len() == 0 {
        lemma_nothing(a);
        seq![]
    } else {
        let op = match locals.last() {
            LocalDeclaration::Local => Op::Pop,
            LocalDeclaration::Capture => Op::CloseLocal,
        };
        lemma_emit(a, op, span);
        let a1 = emit(a, op, span).unwrap();
        let o2 = lemma_pop_locals(a1, locals.drop_last(), span);
        lemma_chain(a, a1, pop_locals(a1, locals.drop_last(), span).unwrap(), seq![fitted(op)], o2);
        seq![fitted(op)] + o2
    }
}

proof fn lemma_define(a: Asm, a1: Asm, ops: Seq<Op>, identifier: Identifier) -> (r: Seq<Op>)
    requires
        appends(a, a1, ops),
        define_if_global(Some(a1), identifier) is Some,
    ensures
        appends(a, define_if_global(Some(a1), identifier).unwrap(), r),
{
    if a1.global {
        let o2 = lemma_emit_string(a1, identifier.value@, 1, identifier.span);
        lemma_chain(a, a1, emit_string(a1, identifier.value@, 1, identifier.span).unwrap(), ops, o2);
        ops + o2
    } else {
        ops
    }
}

/// The code appended for a statement is a run of whole instructions.
#[verifier::spinoff_prover]
#[verifier::rlimit(40)]
proof fn lemma_stmt_ops(t: AsmTables, a: Asm, s: Stmt) -> (ops: Seq<Op>)
    requires
        asm_stmt(t, a, s) is Some,
    ensures
        appends(a, asm_stmt(t, a, s).unwrap(), ops),
    decreases s, 0int,
{
    lemma_pow256_values();
    match s {
        Stmt::VarDecl(x) => {
            match x.assignment {
                Some(asg) => {
                    let o1 = lemma_expr_ops(t, a, asg.expr);
                    lemma_define(a, asm_expr(t, a, asg.expr).unwrap(), o1, x.identifier)
                },
                None => {
                    lemma_emit(a, Op::Nil, x.var);
                    lemma_define(a, emit(a, Op::Nil, x.var).unwrap(), seq![fitted(Op::Nil)], x.identifier)
                },
            }
        },
        Stmt::FunDecl(x) => {
            let d = x.function.decoration.spec_index();
            let (sh, lo) = (Op::CloseFunction { function_index: d }, Op::CloseFunctionLong { function_index: d });
            lemma_emit_indexed(a, d as int, sh, lo, x.fun);
            lemma_define(a, emit_indexed(a, d as int, sh, lo, x.fun).unwrap(), seq![fitted(short_or_long(d as int, sh, lo))], x.identifier)
        },
        Stmt::ClassDecl(x) => {
            let d = x.class_decoration.spec_index();
            let span = Span::spec_new(x.class.spec_start(), x.rbrace.spec_end());
            let (sh, lo) = (Op::Class { class_index: d }, Op::ClassLong { class_index: d });
            lemma_emit_indexed(a, d as int, sh, lo, span);
            lemma_define(a, emit_indexed(a, d as int, sh, lo, span).unwrap(), seq![fitted(short_or_long(d as int, sh, lo))], x.identifier)
        },
        Stmt::Expr(x) => {
            let o1 = lemma_expr_ops(t, a, x.expr);
            lemma_emit_after(a, asm_expr(t, a, x.expr).unwrap(), o1, Op::Pop, x.semi);
            o1 + seq![fitted(Op::Pop)]
        },
        Stmt::Print(x) => {
            let o1 = lemma_expr_ops(t, a, x.expr);
            lemma_emit_after(a, asm_expr(t, a, x.expr).unwrap(), o1, Op::Print, x.print);
            o1 + seq![fitted(Op::Print)]
        },
        Stmt::Block(x) => {
            let d = x.decoration.spec_index();
            let a0 = Asm { global: false, ..a };
            let o1 = lemma_stmts_ops(t, a0, x.stmts, 0);
            let a1 = asm_stmts(t, a0, x.stmts, 0).unwrap();
            let o2 = lemma_pop_locals(a1, t.block_locals[d as int], x.rbrace);
            lemma_chain(a0, a1, pop_locals(a1, t.block_locals[d as int], x.rbrace).unwrap(), o1, o2);
            o1 + o2
        },
        Stmt::If(x) => {
            let o1 = lemma_expr_ops(t, a, *x.condition.inner);
            let a1 = asm_expr(t, a, *x.condition.inner).unwrap();
            let j0 = Op::JumpIfFalse { distance: 0 };
            let a2 = emit(a1, j0, x.if_).unwrap();
            lemma_emit_after(a, a1, o1, j0, x.if_);
            let a3 = emit(a2, Op::Pop, x.if_).unwrap();
            lemma_emit(a2, Op::Pop, x.if_);
            let o4 = lemma_stmt_ops(t, a3, *x.stmt);
            let a4 = asm_stmt(t, a3, *x.stmt).unwrap();
            lemma_chain(a2, a3, a4, seq![fitted(Op::Pop)], o4);
            match x.else_clause {
                Some(c) => {
                    let k0 = Op::Jump { distance: 0 };
                    let a5 = emit(a4, k0, c.else_).unwrap();
                    lemma_emit_after(a2, a4, seq![fitted(Op::Pop)] + o4, k0, c.else_);
                    let back = seq![fitted(Op::Pop)] + o4 + seq![fitted(k0)];
                    lemma_chain(a, a2, a5, o1 + seq![fitted(j0)], back);
                    assert(o1 + seq![fitted(j0)] + back =~= o1 + seq![jump(true, 0)] + back);
                    lemma_patch(a, a2, a5, o1, true, back);
                    let p5 = patch(a5, a2.code.len() as int).unwrap();
                    let front = o1 + seq![jump(true, (a5.code.len() - a2.code.len()) as usize)] + seq![fitted(Op::Pop)] + o4;
                    assert(o1 + seq![jump(true, (a5.code.len() - a2.code.len()) as usize)] + back =~= front + seq![fitted(k0)]);
                    let a6 = emit(p5, Op::Pop, c.else_).unwrap();
                    lemma_emit(p5, Op::Pop, c.else_);
                    let o7 = lemma_stmt_ops(t, a6, *c.stmt);
                    let a7 = asm_stmt(t, a6, *c.stmt).unwrap();
                    let back2 = seq![fitted(Op::Pop)] + o7;
                    lemma_chain(p5, a6, a7, seq![fitted(Op::Pop)], o7);
                    lemma_chain(a, p5, a7, front + seq![fitted(k0)], back2);
                    assert(front + seq![fitted(k0)] + back2 =~= front + seq![jump(false, 0)] + back2);
                    lemma_patch(a, p5, a7, front, false, back2);
                    front + seq![jump(false, (a7.code.len() - p5.code.len()) as usize)] + back2
                },
                None => {
                    let back = seq![fitted(Op::Pop)] + o4;
                    lemma_chain(a, a2, a4, o1 + seq![fitted(j0)], back);
                    assert(o1 + seq![fitted(j0)] + back =~= o1 + seq![jump(true, 0)] + back);
                    lemma_patch(a, a2, a4, o1, true, back);
                    let p4 = patch(a4, a2.code.len() as int).unwrap();
                    let r = o1 + seq![jump(true, (a4.code.len() - a2.code.len()) as usize)] + back;
                    lemma_emit_after(a, p4, r, Op::Pop, x.if_);
                    r + seq![fitted(Op::Pop)]
                },
            }
        },
        Stmt::While(x) => {
            let o1 = lemma_expr_ops(t, a, x.expr);
            let a1 = asm_expr(t, a, x.expr).unwrap();
            let j0 = Op::JumpIfFalse { distance: 0 };
            let a2 = emit(a1, j0, x.while_).unwrap();
            lemma_emit_after(a, a1, o1, j0, x.while_);
            let a3 = emit(a2, Op::Pop, x.while_).unwrap();
            lemma_emit(a2, Op::Pop, x.while_);
            let o4 = lemma_stmt_ops(t, a3, *x.body);
            let a4 = asm_stmt(t, a3, *x.body).unwrap();
            lemma_chain(a2, a3, a4, seq![fitted(Op::Pop)], o4);
            let lp = Op::Loop { distance: (a4.code.len() - a.code.len() + 3) as usize };
            assert(operands_fit(fitted(lp))) by {
                lemma_fitted(lp);
            }
            let a5 = emit(a4, lp, x.while_).unwrap();
            lemma_emit_after(a2, a4, seq![fitted(Op::Pop)] + o4, lp, x.while_);
            let back = seq![fitted(Op::Pop)] + o4 + seq![fitted(lp)];
            lemma_chain(a, a2, a5, o1 + seq![fitted(j0)], back);
            assert(o1 + seq![fitted(j0)] + back =~= o1 + seq![jump(true, 0)] + back);
            lemma_patch(a, a2, a5, o1, true, back);
            let p5 = patch(a5, a2.code.len() as int).unwrap();
            let r = o1 + seq![jump(true, (a5.code.len() - a2.code.len()) as usize)] + back;
            lemma_emit_after(a, p5, r, Op::Pop, x.while_);
            r + seq![fitted(Op::Pop)]
        },
        Stmt::Return(x) => {
            match x.expr {
                Some(e) => {
                    let o1 = lemma_expr_ops(t, a, e);
                    lemma_emit_after(a, asm_expr(t, a, e).unwrap(), o1, Op::Return, x.return_);
                    o1 + seq![fitted(Op::Return)]
                },
                None => {
                    lemma_emit(a, Op::Return, x.return_);
                    seq![fitted(Op::Return)]
                },
            }
        },
    }
}

proof fn lemma_stmts_ops(t: AsmTables, a: Asm, ss: Vec<Stmt>, i: int) -> (ops: Seq<Op>)
    requires
        asm_stmts(t, a, ss, i) is Some,
    ensures
        appends(a, asm_stmts(t, a, ss, i).unwrap(), ops),
    decreases ss, ss@.len() - i,
{
    if 0 <= i < ss@.len() {
        let o1 = lemma_stmt_ops(t, a, ss@[i]);
        let a1 = asm_stmt(t, a, ss@[i]).unwrap();
        let o2 = lemma_stmts_ops(t, a1, ss, i + 1);
        lemma_chain(a, a1, asm_stmts(t, a1, ss, i + 1).unwrap(), o1, o2);
        o1 + o2
    } else {
        lemma_nothing(a);
        seq![]
    }
}

/// From `start` on, `code` is the encodings of `ops`, one after another, and
/// each of them decodes back to itself where it starts, ending where the
/// next one starts.
pub open spec fn decodes_as(code: Seq<u8>, start: int, ops: Seq<Op>) -> bool {
    &&& 0 <= start <= code.len()
    &&& code.skip(start) == encodings(ops)
    &&& forall|k: int|
        0 <= k < ops.len() ==> #[trigger] op_decode(code, boundary(start, ops, k)) == (
            Ok::<Op, DecodeError>(ops[k]),
            boundary(start, ops, k + 1),
        )
}

proof fn lemma_appends_decode(a: Asm, b: Asm, ops: Seq<Op>)
    requires
        appends(a, b, ops),
    ensures
        decodes_as(b.code, a.code.len() as int, ops),
{
    assert(b.code.skip(a.code.len() as int) =~= encodings(ops));
    assert forall|k: int| 0 <= k < ops.len() implies #[trigger] op_decode(b.code, boundary(a.code.len() as int, ops, k)) == (
        Ok::<Op, DecodeError>(ops[k]),
        boundary(a.code.len() as int, ops, k + 1),
    ) by {
        lemma_encodings_decode(a.code, ops, Seq::<u8>::empty(), k);
        assert(a.code + encodings(ops) + Seq::<u8>::empty() =~= b.code);
    }
}

proof fn lemma_body_ops(t: AsmTables, a: Asm, ss: Vec<Stmt>, global: bool, last: Op, span: Span) -> (ops: Seq<Op>)
    requires
        then_emit(then_emit(asm_stmts(t, Asm { global, ..a }, ss, 0), last, span), Op::Return, span) is Some,
        last == Op::Nil || last == (Op::GetLocal { local_index: 0 }),
    ensures
        appends(a, then_emit(then_emit(asm_stmts(t, Asm { global, ..a }, ss, 0), last, span), Op::Return, span).unwrap(), ops),
{
    lemma_pow256_values();
    let a0 = Asm { global, ..a };
    let o1 = lemma_stmts_ops(t, a0, ss, 0);
    let a1 = asm_stmts(t, a0, ss, 0).unwrap();
    lemma_emit_after(a0, a1, o1, last, span);
    let a2 = emit(a1, last, span).unwrap();
    lemma_emit_after(a0, a2, o1 + seq![fitted(last)], Op::Return, span);
    o1 + seq![fitted(last)] + seq![fitted(Op::Return)]
}

/// The code that assembling a program appends is a run of whole
/// instructions: each decodes back to itself where it starts, and the next
/// one starts where it ends.
pub proof fn lemma_program_code_decodes(t: AsmTables, a: Asm, p: Program)
    requires
        asm_program(t, a, p) is Some,
    ensures
        exists|ops: Seq<Op>| #[trigger] decodes_as(asm_program(t, a, p).unwrap().code, a.code.len() as int, ops),
{
    let ops = lemma_body_ops(t, a, p.stmts, true, Op::Nil, p.eof);
    lemma_appends_decode(a, asm_program(t, a, p).unwrap(), ops);
    assert(decodes_as(asm_program(t, a, p).unwrap().code, a.code.len() as int, ops));
}

/// The code that assembling a function body appends is a run of whole
/// instructions, each decoding back to itself.
pub proof fn lemma_function_code_decodes(t: AsmTables, a: Asm, f: Function)
    requires
        asm_function(t, a, f) is Some,
    ensures
        exists|ops: Seq<Op>| #[trigger] decodes_as(asm_function(t, a, f).unwrap().code, a.code.len() as int, ops),
{
    let ops = lemma_body_ops(t, a, f.body.stmts, false, Op::Nil, f.body.rbrace);
    lemma_appends_decode(a, asm_function(t, a, f).unwrap(), ops);
    assert(decodes_as(asm_function(t, a, f).unwrap().code, a.code.len() as int, ops));
}

/// The code that assembling an initializer body appends is a run of whole
/// instructions, each decoding back to itself.
pub proof fn lemma_initializer_code_decodes(t: AsmTables, a: Asm, f: Function)
    requires
        asm_initializer(t, a, f) is Some,
    ensures
        exists|ops: Seq<Op>| #[trigger] decodes_as(asm_initializer(t, a, f).unwrap().code, a.code.len() as int, ops),
{
    let ops = lemma_body_ops(t, a, f.body.stmts, false, Op::GetLocal { local_index: 0 }, f.body.rbrace);
    lemma_appends_decode(a, asm_initializer(t, a, f).unwrap(), ops);
    assert(decodes_as(asm_initializer(t, a, f).unwrap().code, a.code.len() as int, ops));
}

proof fn lemma_bodies_ops(t: AsmTables, a: Asm, fs: Seq<Function>, i: int, n: int) -> (ops: Seq<Op>)
    requires
        0 <= i <= n,
        asm_bodies(t, a, fs, n) is Some,
    ensures
        asm_bodies(t, a, fs, i) is Some,
        appends(asm_bodies(t, a, fs, i).unwrap(), asm_bodies(t, a, fs, n).unwrap(), ops),
    decreases n - i,
{
    if i == n {
        lemma_nothing(asm_bodies(t, a, fs, n).unwrap());
        seq![]
    } else {
        let o1 = lemma_bodies_ops(t, a, fs, i + 1, n);
        let b = asm_bodies(t, a, fs, i).unwrap();
        let b1 = asm_bodies(t, a, fs, i + 1).unwrap();
        let o0 = lemma_body_ops(t, fresh(b), fs[i].body.stmts, false, Op::Nil, fs[i].body.rbrace);
        lemma_chain(b, b1, asm_bodies(t, a, fs, n).unwrap(), o0, o1);
        o0 + o1
    }
}

/// The code of an assembled program and its function bodies is a run of
/// whole instructions from its first byte to its last, each decoding back
/// to itself.
pub proof fn lemma_assembled_code_decodes(ast: Ast, out: NameResolutionOutput)
    requires
        assembled(ast, out) is Some,
    ensures
        exists|ops: Seq<Op>| #[trigger] decodes_as(assembled(ast, out).unwrap().code, 0, ops),
{
    let t = resolved_tables(out);
    let fs = resolved_functions(out);
    let n = out.function_infos@.len() as int;
    let e = empty_state();
    let o0 = lemma_body_ops(t, e, ast.program.stmts, true, Op::Nil, ast.program.eof);
    let a0 = asm_program(t, e, ast.program).unwrap();
    let o1 = lemma_bodies_ops(t, a0, fs, 0, n);
    lemma_chain(e, a0, assembled(ast, out).unwrap(), o0, o1);
    lemma_appends_decode(e, assembled(ast, out).unwrap(), o0 + o1);
}

/// From the entry of each function body on, the assembled code is a run of
/// whole instructions, each decoding back to itself: decoding from a
/// function's entry reads instructions, never the middle of one.
pub proof fn lemma_function_entry_decodes(ast: Ast, out: NameResolutionOutput, i: int)
    requires
        assembled(ast, out) is Some,
        0 <= i < out.function_infos@.len(),
    ensures
        exists|ops: Seq<Op>| #[trigger] decodes_as(assembled(ast, out).unwrap().code, body_start(ast, out, i), ops),
{
    let t = resolved_tables(out);
    let fs = resolved_functions(out);
    let n = out.function_infos@.len() as int;
    let a0 = asm_program(t, empty_state(), ast.program).unwrap();
    let ops = lemma_bodies_ops(t, a0, fs, i, n);
    lemma_appends_decode(asm_bodies(t, a0, fs, i).unwrap(), assembled(ast, out).unwrap(), ops);
    assert(body_start(ast, out, i) == asm_bodies(t, a0, fs, i).unwrap().code.len() as int);
    assert(decodes_as(assembled(ast, out).unwrap().code, body_start(ast, out, i), ops));
}

/// The code of a compiled executable decodes, from its first byte to its
/// last, into whole instructions that each decode back to themselves.
pub proof fn lemma_executable_code_decodes(e: Executable, ast: Ast, out: NameResolutionOutput)
    requires
        executable_of(e, ast, out),
    ensures
        exists|ops: Seq<Op>| #[trigger] decodes_as(e.chunk.code(), 0, ops),
{
    lemma_assembled_code_decodes(ast, out);
    let ops = choose|ops: Seq<Op>| #[trigger] decodes_as(assembled(ast, out).unwrap().code, 0, ops);
    assert(decodes_as(e.chunk.code(), 0, ops));
}

/// From the entry of each function of a compiled executable on, its code
/// decodes into whole instructions that each decode back to themselves.
pub proof fn lemma_executable_entry_decodes(e: Executable, ast: Ast, out: NameResolutionOutput, i: int)
    requires
        executable_of(e, ast, out),
        0 <= i < e.functions@.len(),
    ensures
        exists|ops: Seq<Op>| #[trigger] decodes_as(e.chunk.code(), e.functions@[i].ip as int, ops),
{
    assert(e.functions@[i].ip == body_start(ast, out, i));
    lemma_function_entry_decodes(ast, out, i);
    let ops = choose|ops: Seq<Op>| #[trigger] decodes_as(assembled(ast, out).unwrap().code, body_start(ast, out, i), ops);
    assert(decodes_as(e.chunk.code(), e.functions@[i].ip as int, ops));
}

/// The code of a binary operation other than `and` and `or` is the code of
/// its left operand, then the code of its right operand, then the
/// operator's own instructions: `+` Add, `-` Subtract, `*` Multiply, `/`
/// Divide, `==` Equal, `!=` Equal then Not, `>` Greater, `>=` Less then Not,
/// `<` Less, `<=` Greater then Not. Where the operator is one instruction,
/// that instruction decodes from the end of the code.
pub proof fn lemma_binary_code(t: AsmTables, a: Asm, x: BinaryExpr)
    requires
        asm_expr(t, a, Expr::Binary(x)) is Some,
        !(x.operator is And),
        !(x.operator is Or),
    ensures
        asm_expr(t, a, *x.left) is Some,
        asm_expr(t, asm_expr(t, a, *x.left).unwrap(), *x.right) is Some,
        ({
            let mid = asm_expr(t, asm_expr(t, a, *x.left).unwrap(), *x.right).unwrap().code;
            let code = asm_expr(t, a, Expr::Binary(x)).unwrap().code;
            let last = op_decode(code, mid.len() as int);
            &&& x.operator is Add ==> code == mid + op_encoding(Op::Add) && last == (Ok::<Op, DecodeError>(Op::Add), code.len() as int)
            &&& x.operator is Subtract ==> code == mid + op_encoding(Op::Subtract) && last == (Ok::<Op, DecodeError>(Op::Subtract), code.len() as int)
            &&& x.operator is Multiply ==> code == mid + op_encoding(Op::Multiply) && last == (Ok::<Op, DecodeError>(Op::Multiply), code.len() as int)
            &&& x.operator is Divide ==> code == mid + op_encoding(Op::Divide) && last == (Ok::<Op, DecodeError>(Op::Divide), code.len() as int)
            &&& x.operator is Equal ==> code == mid + op_encoding(Op::Equal) && last == (Ok::<Op, DecodeError>(Op::Equal), code.len() as int)
            &&& x.operator is Greater ==> code == mid + op_encoding(Op::Greater) && last == (Ok::<Op, DecodeError>(Op::Greater), code.len() as int)
            &&& x.operator is Less ==> code == mid + op_encoding(Op::Less) && last == (Ok::<Op, DecodeError>(Op::Less), code.len() as int)
            &&& x.operator is NotEqual ==> code == mid + op_encoding(Op::Equal) + op_encoding(Op::Not)
            &&& x.operator is GreaterEqual ==> code == mid + op_encoding(Op::Less) + op_encoding(Op::Not)
            &&& x.operator is LessEqual ==> code == mid + op_encoding(Op::Greater) + op_encoding(Op::Not)
        }),
{
    let a1 = asm_expr(t, a, *x.left).unwrap();
    let a2 = asm_expr(t, a1, *x.right).unwrap();
    let mid = a2.code;
    match x.operator {
        BinaryOperator::Add(_) => crate::op::lemma_op_roundtrip(Op::Add, mid, seq![]),
        BinaryOperator::Subtract(_) => crate::op::lemma_op_roundtrip(Op::Subtract, mid, seq![]),
        BinaryOperator::Multiply(_) => crate::op::lemma_op_roundtrip(Op::Multiply, mid, seq![]),
        BinaryOperator::Divide(_) => crate::op::lemma_op_roundtrip(Op::Divide, mid, seq![]),
        BinaryOperator::Equal(_) => crate::op::lemma_op_roundtrip(Op::Equal, mid, seq![]),
        BinaryOperator::Greater(_) => crate::op::lemma_op_roundtrip(Op::Greater, mid, seq![]),
        BinaryOperator::Less(_) => crate::op::lemma_op_roundtrip(Op::Less, mid, seq![]),
        _ => {},
    }
    assert(mid + seq![] =~= mid);
    assert(mid + op_encoding(Op::Add) + seq![] =~= mid + op_encoding(Op::Add));
    assert(mid + op_encoding(Op::Subtract) + seq![] =~= mid + op_encoding(Op::Subtract));
    assert(mid + op_encoding(Op::Multiply) + seq![] =~= mid + op_encoding(Op::Multiply));
    assert(mid + op_encoding(Op::Divide) + seq![] =~= mid + op_encoding(Op::Divide));
    assert(mid + op_encoding(Op::Equal) + seq![] =~= mid + op_encoding(Op::Equal));
    assert(mid + op_encoding(Op::Greater) + seq![] =~= mid + op_encoding(Op::Greater));
    assert(mid + op_encoding(Op::Less) + seq![] =~= mid + op_encoding(Op::Less));
}

/// The code of `!` and of `-` on one operand is the operand's code, then
/// Not, or Negate, which decodes from the end of the code.
pub proof fn lemma_unary_code(t: AsmTables, a: Asm, x: UnaryExpr)
    requires
        asm_expr(t, a, Expr::Unary(x)) is Some,
    ensures
        asm_expr(t, a, *x.inner) is Some,
        ({
            let mid = asm_expr(t, a, *x.inner).unwrap().code;
            let code = asm_expr(t, a, Expr::Unary(x)).unwrap().code;
            let last = op_decode(code, mid.len() as int);
            &&& x.operator is Not ==> code == mid + op_encoding(Op::Not) && last == (Ok::<Op, DecodeError>(Op::Not), code.len() as int)
            &&& x.operator is Negate ==> code == mid + op_encoding(Op::Negate) && last == (Ok::<Op, DecodeError>(Op::Negate), code.len() as int)
        }),
{
    let mid = asm_expr(t, a, *x.inner).unwrap().code;
    match x.operator {
        UnaryOperator::Not(_) => crate::op::lemma_op_roundtrip(Op::Not, mid, seq![]),
        UnaryOperator::Negate(_) => crate::op::lemma_op_roundtrip(Op::Negate, mid, seq![]),
    }
    assert(mid + op_encoding(Op::Not) + seq![] =~= mid + op_encoding(Op::Not));
    assert(mid + op_encoding(Op::Negate) + seq![] =~= mid + op_encoding(Op::Negate));
}

/// `true`, `false` and `nil` each assemble to their one instruction.
pub proof fn lemma_keyword_literal_code(t: AsmTables, a: Asm, x: LiteralExpr)
    requires
        asm_expr(t, a, Expr::Literal(x)) is Some,
    ensures
        ({
            let code = asm_expr(t, a, Expr::Literal(x)).unwrap().code;
            &&& x.literal is True ==> code == a.code + op_encoding(Op::True)
            &&& x.literal is False ==> code == a.code + op_encoding(Op::False)
            &&& x.literal is Nil ==> code == a.code + op_encoding(Op::Nil)
        }),
{
}

/// A print statement assembles to its expression's code, then Print; an
/// expression statement to its expression's code, then Pop.
pub proof fn lemma_print_and_expr_stmt_code(t: AsmTables, a: Asm, p: PrintStmt, e: ExprStmt)
    ensures
        asm_stmt(t, a, Stmt::Print(p)) is Some ==> asm_expr(t, a, p.expr) is Some && asm_stmt(t, a, Stmt::Print(p)).unwrap().code
            == asm_expr(t, a, p.expr).unwrap().code + op_encoding(Op::Print),
        asm_stmt(t, a, Stmt::Expr(e)) is Some ==> asm_expr(t, a, e.expr) is Some && asm_stmt(t, a, Stmt::Expr(e)).unwrap().code
            == asm_expr(t, a, e.expr).unwrap().code + op_encoding(Op::Pop),
{
}

} // verus!
