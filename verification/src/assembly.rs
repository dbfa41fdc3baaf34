use vstd::prelude::*;

use crate::ast::{
    expr_span_start, literal_span, unary_token, BinaryOperator, Expr, Function, Identifier,
    Literal, Program, Stmt, UnaryOperator, BlockStmt, IfStmt, WhileStmt,
};
use crate::chunk::{Chunk, Constant};
use crate::codec::{U16, U24, U8};
use crate::name_resolution::{LocalDeclaration, Resolution};
use crate::op::{op_encoding, Op};
use crate::punctuated::{punctuated_items, Punctuated};
use crate::rle::repeat;
use crate::span::Span;

verus! {

/// A constant as plain values: its kind (number, string, function), its
/// bytes and its function index.
pub open spec fn constant_view(c: Constant) -> (int, Seq<u8>, usize) {
    match c {
        Constant::Float(v) => (0, v@, 0),
        Constant::String(v) => (1, v@, 0),
        Constant::Function(i) => (2, seq![], i),
    }
}

/// The state of an assembly: the code with the span of each byte, the
/// constants, the string constants already added with their indices, and
/// whether declarations define globals.
pub struct Asm {
    pub code: Seq<u8>,
    pub spans: Seq<Span>,
    pub constants: Seq<(int, Seq<u8>, usize)>,
    pub strings: Seq<(Seq<u8>, usize)>,
    pub global: bool,
}

/// What name resolution found: a resolution per name use and the locals
/// of each block.
pub struct AsmTables {
    pub resolutions: Seq<Resolution>,
    pub block_locals: Seq<Seq<LocalDeclaration>>,
}

/// Appends an instruction; `None` when the code would outgrow a `usize`.
pub open spec fn emit(a: Asm, op: Op, span: Span) -> Option<Asm> {
    if a.code.len() + op_encoding(op).len() <= usize::MAX {
        Some(
            Asm {
                code: a.code + op_encoding(op),
                spans: a.spans + repeat(span, op_encoding(op).len()),
                ..a
            },
        )
    } else {
        None
    }
}

pub open spec fn then_emit(a: Option<Asm>, op: Op, span: Span) -> Option<Asm> {
    match a {
        Some(a) => emit(a, op, span),
        None => None,
    }
}

/// The first entry for `key`, or -1.
pub open spec fn string_index(strings: Seq<(Seq<u8>, usize)>, key: Seq<u8>) -> int
    decreases strings.len(),
{
    if strings.len() == 0 {
        -1
    } else if string_index(strings.drop_last(), key) >= 0 {
        string_index(strings.drop_last(), key)
    } else if strings.last().0 == key {
        strings.len() - 1
    } else {
        -1
    }
}

/// The constant index of the string `s`, added unless it was.
pub open spec fn add_string(a: Asm, s: Seq<u8>) -> (Asm, int) {
    let i = string_index(a.strings, s);
    if i >= 0 {
        (a, a.strings[i].1 as int)
    } else {
        (
            Asm {
                constants: a.constants.push((1, s, 0usize)),
                strings: a.strings.push((s, a.constants.len() as usize)),
                ..a
            },
            a.constants.len() as int,
        )
    }
}

/// Interning a string a second time finds it: the same index comes back and
/// nothing more is added.
pub proof fn lemma_add_string_twice(a: Asm, s: Seq<u8>)
    requires
        a.constants.len() <= usize::MAX,
    ensures
        add_string(add_string(a, s).0, s) == add_string(a, s),
{
    if string_index(a.strings, s) < 0 {
        let a1 = add_string(a, s).0;
        assert(a1.strings.drop_last() =~= a.strings);
        assert(string_index(a1.strings, s) == a.strings.len());
    }
}

/// Writes the distance from `target` to the end of the code into the two
/// bytes before `target`; `None` when it does not fit in two bytes.
pub open spec fn patch(a: Asm, target: int) -> Option<Asm> {
    if 2 <= target <= a.code.len() && a.code.len() - target <= u16::MAX {
        let distance = a.code.len() - target;
        Some(
            Asm {
                code: a.code.update(target - 2, (distance % 256) as u8).update(
                    target - 1,
                    (distance / 256) as u8,
                ),
                ..a
            },
        )
    } else {
        None
    }
}

pub open spec fn then_patch(a: Option<Asm>, target: int) -> Option<Asm> {
    match a {
        Some(a) => patch(a, target),
        None => None,
    }
}

pub open spec fn short_or_long(index: int, short: Op, long: Op) -> Op {
    if index <= U8::MAX {
        short
    } else {
        long
    }
}

/// Appends an instruction with an operand that must fit in three bytes.
pub open spec fn emit_indexed(a: Asm, index: int, short: Op, long: Op, span: Span) -> Option<Asm> {
    if 0 <= index <= U24::MAX {
        emit(a, short_or_long(index, short, long), span)
    } else {
        None
    }
}

/// Loads a string constant with the instruction that `make` chooses for its
/// index.
pub open spec fn emit_string(a: Asm, s: Seq<u8>, kind: int, span: Span) -> Option<Asm> {
    let (a1, c) = add_string(a, s);
    let cu = c as usize;
    if kind == 0 {
        emit_indexed(a1, c, Op::Constant { constant_index: cu }, Op::ConstantLong { constant_index: cu }, span)
    } else if kind == 1 {
        emit_indexed(a1, c, Op::DefineGlobal { constant_index: cu }, Op::DefineGlobalLong { constant_index: cu }, span)
    } else if kind == 2 {
        emit_indexed(a1, c, Op::GetGlobal { constant_index: cu }, Op::GetGlobalLong { constant_index: cu }, span)
    } else if kind == 3 {
        emit_indexed(a1, c, Op::SetGlobal { constant_index: cu }, Op::SetGlobalLong { constant_index: cu }, span)
    } else if kind == 4 {
        emit_indexed(a1, c, Op::GetField { constant_index: cu }, Op::GetFieldLong { constant_index: cu }, span)
    } else {
        emit_indexed(a1, c, Op::SetField { constant_index: cu }, Op::SetFieldLong { constant_index: cu }, span)
    }
}

/// Defines a global of the declared name, at top level.
pub open spec fn define_if_global(a: Option<Asm>, identifier: Identifier) -> Option<Asm> {
    match a {
        Some(a) => if a.global {
            emit_string(a, identifier.value@, 1, identifier.span)
        } else {
            Some(a)
        },
        None => None,
    }
}

/// Loads the variable that a name use resolved to.
pub open spec fn load(t: AsmTables, a: Asm, index: usize, span: Span, name: Option<Seq<u8>>) -> Option<Asm> {
    if index < t.resolutions.len() {
        match t.resolutions[index as int] {
            Resolution::Local { local_index } => emit_indexed(
                a,
                local_index as int,
                Op::GetLocal { local_index },
                Op::GetLocalLong { local_index },
                span,
            ),
            Resolution::Upvalue { upvalue_index } => emit_indexed(
                a,
                upvalue_index as int,
                Op::GetUpvalue { upvalue_index },
                Op::GetUpvalueLong { upvalue_index },
                span,
            ),
            Resolution::Global => match name {
                Some(s) => emit_string(a, s, 2, span),
                None => None,
            },
        }
    } else {
        None
    }
}

/// Stores into the variable that an assignment's name resolved to.
pub open spec fn store(t: AsmTables, a: Asm, index: usize, name_span: Span, equal: Span, name: Seq<u8>) -> Option<Asm> {
    if index < t.resolutions.len() {
        match t.resolutions[index as int] {
            Resolution::Local { local_index } => emit_indexed(
                a,
                local_index as int,
                Op::SetLocal { local_index },
                Op::SetLocalLong { local_index },
                name_span,
            ),
            Resolution::Upvalue { upvalue_index } => emit_indexed(
                a,
                upvalue_index as int,
                Op::SetUpvalue { upvalue_index },
                Op::SetUpvalueLong { upvalue_index },
                name_span,
            ),
            Resolution::Global => emit_string(a, name, 3, equal),
        }
    } else {
        None
    }
}

/// The instructions of a binary operator other than `and` and `or`.
pub open spec fn binary_ops(a: Asm, op: BinaryOperator) -> Option<Asm> {
    match op {
        BinaryOperator::Greater(s) => emit(a, Op::Greater, s),
        BinaryOperator::GreaterEqual(s) => then_emit(emit(a, Op::Less, s), Op::Not, s),
        BinaryOperator::Less(s) => emit(a, Op::Less, s),
        BinaryOperator::LessEqual(s) => then_emit(emit(a, Op::Greater, s), Op::Not, s),
        BinaryOperator::NotEqual(s) => then_emit(emit(a, Op::Equal, s), Op::Not, s),
        BinaryOperator::Equal(s) => emit(a, Op::Equal, s),
        BinaryOperator::Subtract(s) => emit(a, Op::Subtract, s),
        BinaryOperator::Add(s) => emit(a, Op::Add, s),
        BinaryOperator::Divide(s) => emit(a, Op::Divide, s),
        BinaryOperator::Multiply(s) => emit(a, Op::Multiply, s),
        _ => Some(a),
    }
}

/// The code for an expression, appended to `a`; `None` where assembling
/// it would fail.
pub open spec fn asm_expr(t: AsmTables, a: Asm, e: Expr) -> Option<Asm>
    decreases e, 0int,
{
    match e {
        Expr::Literal(x) => match x.literal {
            Literal::Float { span, value } => {
                let a1 = Asm { constants: a.constants.push((0, value@, 0usize)), ..a };
                let c = a.constants.len() as int;
                emit_indexed(
                    a1,
                    c,
                    Op::Constant { constant_index: c as usize },
                    Op::ConstantLong { constant_index: c as usize },
                    span,
                )
            },
            Literal::String { span, value } => emit_string(a, value@, 0, span),
            Literal::True(span) => emit(a, Op::True, span),
            Literal::False(span) => emit(a, Op::False, span),
            Literal::Nil(span) => emit(a, Op::Nil, span),
        },
        Expr::Unary(x) => match x.operator {
            UnaryOperator::Not(s) => then_emit(asm_expr(t, a, *x.inner), Op::Not, s),
            UnaryOperator::Negate(s) => then_emit(asm_expr(t, a, *x.inner), Op::Negate, s),
        },
        Expr::Binary(x) => match x.operator {
            BinaryOperator::And(s) => match then_emit(asm_expr(t, a, *x.left), Op::JumpIfFalse { distance: 0 }, s) {
                Some(a2) => match then_emit(Some(a2), Op::Pop, s) {
                    Some(a3) => match asm_expr(t, a3, *x.right) {
                        Some(a4) => patch(a4, a2.code.len() as int),
                        None => None,
                    },
                    None => None,
                },
                None => None,
            },
            BinaryOperator::Or(s) => match then_emit(asm_expr(t, a, *x.left), Op::JumpIfFalse { distance: 0 }, s) {
                Some(a2) => match emit(a2, Op::Jump { distance: 0 }, s) {
                    Some(a3) => match patch(a3, a2.code.len() as int) {
                        Some(a4) => match asm_expr(t, a4, *x.right) {
                            Some(a5) => patch(a5, a3.code.len() as int),
                            None => None,
                        },
                        None => None,
                    },
                    None => None,
                },
                None => None,
            },
            _ => match asm_expr(t, a, *x.left) {
                Some(a1) => match asm_expr(t, a1, *x.right) {
                    Some(a2) => binary_ops(a2, x.operator),
                    None => None,
                },
                None => None,
            },
        },
        Expr::Grouping(x) => asm_expr(t, a, *x.inner),
        Expr::Variable(x) => load(
            t,
            a,
            x.name.decoration.spec_index(),
            x.name.identifier.span,
            Some(x.name.identifier.value@),
        ),
        Expr::Assign(x) => match asm_expr(t, a, *x.expr) {
            Some(a1) => store(
                t,
                a1,
                x.name.decoration.spec_index(),
                x.name.identifier.span,
                x.equal,
                x.name.identifier.value@,
            ),
            None => None,
        },
        Expr::Call(x) => {
            let span = Span::spec_new(expr_span_start(*x.target), x.rparen.spec_end());
            let arity = punctuated_items(x.arguments).len();
            if x.arguments.values@.len() < usize::MAX {
                match then_emit(Some(a), Op::PushFrame, span) {
                    Some(a1) => match asm_expr(t, a1, *x.target) {
                        Some(a2) => then_emit(
                            asm_args(t, a2, x.arguments, 0),
                            Op::Call { arity: arity as usize },
                            span,
                        ),
                        None => None,
                    },
                    None => None,
                }
            } else {
                None
            }
        },
        Expr::Get(x) => match asm_expr(t, a, *x.target) {
            Some(a1) => emit_string(a1, x.field.value@, 4, x.field.span),
            None => None,
        },
        Expr::SetField(x) => match asm_expr(t, a, *x.expr) {
            Some(a1) => match asm_expr(t, a1, *x.target) {
                Some(a2) => emit_string(a2, x.field.value@, 5, x.field.span),
                None => None,
            },
            None => None,
        },
        Expr::This(x) => load(t, a, x.decoration.spec_index(), x.this, None),
        Expr::Super(_) => Some(a),
    }
}

/// The code for call arguments from the `i`-th on.
pub open spec fn asm_args(t: AsmTables, a: Asm, p: Punctuated<Expr, Span>, i: int) -> Option<Asm>
    decreases p, p.values@.len() + 1 - i,
{
    if 0 <= i < p.values@.len() {
        match asm_expr(t, a, p.values@[i].0) {
            Some(a1) => asm_args(t, a1, p, i + 1),
            None => None,
        }
    } else if i == p.values@.len() {
        match p.last {
            Some(b) => asm_expr(t, a, *b),
            None => Some(a),
        }
    } else {
        Some(a)
    }
}

/// Pops the locals of a block, last declared first, closing those that are
/// captured.
pub open spec fn pop_locals(a: Asm, locals: Seq<LocalDeclaration>, span: Span) -> Option<Asm>
    decreases locals.len(),
{
    if locals.len() == 0 {
        Some(a)
    } else {
        let op = match locals.last() {
            LocalDeclaration::Local => Op::Pop,
            LocalDeclaration::Capture => Op::CloseLocal,
        };
        match emit(a, op, span) {
            Some(a1) => pop_locals(a1, locals.drop_last(), span),
            None => None,
        }
    }
}

/// A backward jump to `start`, counted from past the jump itself.
pub open spec fn emit_loop(a: Option<Asm>, start: int, span: Span) -> Option<Asm> {
    match a {
        Some(a) => if 0 <= start <= a.code.len() && a.code.len() + 3 <= usize::MAX {
            emit(a, Op::Loop { distance: (a.code.len() - start + 3) as usize }, span)
        } else {
            None
        },
        None => None,
    }
}

pub open spec fn with_global(a: Option<Asm>, global: bool) -> Option<Asm> {
    match a {
        Some(a) => Some(Asm { global, ..a }),
        None => None,
    }
}

/// The code for a statement, appended to `a`; `None` where assembling it
/// would fail.
pub open spec fn asm_stmt(t: AsmTables, a: Asm, s: Stmt) -> Option<Asm>
    decreases s, 0int,
{
    match s {
        Stmt::VarDecl(x) => define_if_global(
            match x.assignment {
                Some(asg) => asm_expr(t, a, asg.expr),
                None => emit(a, Op::Nil, x.var),
            },
            x.identifier,
        ),
        Stmt::FunDecl(x) => {
            let d = x.function.decoration.spec_index();
            define_if_global(
                emit_indexed(
                    a,
                    d as int,
                    Op::CloseFunction { function_index: d },
                    Op::CloseFunctionLong { function_index: d },
                    x.fun,
                ),
                x.identifier,
            )
        },
        Stmt::ClassDecl(x) => {
            let d = x.class_decoration.spec_index();
            define_if_global(
                emit_indexed(
                    a,
                    d as int,
                    Op::Class { class_index: d },
                    Op::ClassLong { class_index: d },
                    Span::spec_new(x.class.spec_start(), x.rbrace.spec_end()),
                ),
                x.identifier,
            )
        },
        Stmt::Expr(x) => then_emit(asm_expr(t, a, x.expr), Op::Pop, x.semi),
        Stmt::Print(x) => then_emit(asm_expr(t, a, x.expr), Op::Print, x.print),
        Stmt::Block(x) => {
            let d = x.decoration.spec_index();
            if d < t.block_locals.len() {
                match asm_stmts(t, Asm { global: false, ..a }, x.stmts, 0) {
                    Some(a1) => with_global(pop_locals(a1, t.block_locals[d as int], x.rbrace), a.global),
                    None => None,
                }
            } else {
                None
            }
        },
        Stmt::If(x) => match then_emit(asm_expr(t, a, *x.condition.inner), Op::JumpIfFalse { distance: 0 }, x.if_) {
            Some(a2) => match emit(a2, Op::Pop, x.if_) {
                Some(a3) => match asm_stmt(t, a3, *x.stmt) {
                    Some(a4) => match x.else_clause {
                        Some(c) => match emit(a4, Op::Jump { distance: 0 }, c.else_) {
                            Some(a5) => match then_emit(patch(a5, a2.code.len() as int), Op::Pop, c.else_) {
                                Some(a6) => match asm_stmt(t, a6, *c.stmt) {
                                    Some(a7) => patch(a7, a5.code.len() as int),
                                    None => None,
                                },
                                None => None,
                            },
                            None => None,
                        },
                        None => then_emit(patch(a4, a2.code.len() as int), Op::Pop, x.if_),
                    },
                    None => None,
                },
                None => None,
            },
            None => None,
        },
        Stmt::While(x) => match then_emit(asm_expr(t, a, x.expr), Op::JumpIfFalse { distance: 0 }, x.while_) {
            Some(a2) => match emit(a2, Op::Pop, x.while_) {
                Some(a3) => match asm_stmt(t, a3, *x.body) {
                    Some(a4) => then_emit(
                        then_patch(emit_loop(Some(a4), a.code.len() as int, x.while_), a2.code.len() as int),
                        Op::Pop,
                        x.while_,
                    ),
                    None => None,
                },
                None => None,
            },
            None => None,
        },
        Stmt::Return(x) => then_emit(
            match x.expr {
                Some(e) => asm_expr(t, a, e),
                None => Some(a),
            },
            Op::Return,
            x.return_,
        ),
    }
}

pub open spec fn asm_stmts(t: AsmTables, a: Asm, ss: Vec<Stmt>, i: int) -> Option<Asm>
    decreases ss, ss@.len() - i,
{
    if 0 <= i < ss@.len() {
        match asm_stmt(t, a, ss@[i]) {
            Some(a1) => asm_stmts(t, a1, ss, i + 1),
            None => None,
        }
    } else {
        Some(a)
    }
}

/// The code for a program: its statements at top level, then a return.
pub open spec fn asm_program(t: AsmTables, a: Asm, p: Program) -> Option<Asm> {
    then_emit(then_emit(asm_stmts(t, Asm { global: true, ..a }, p.stmts, 0), Op::Nil, p.eof), Op::Return, p.eof)
}

/// The code for a function body, then a return of nil.
pub open spec fn asm_function(t: AsmTables, a: Asm, f: Function) -> Option<Asm> {
    then_emit(
        then_emit(asm_stmts(t, Asm { global: false, ..a }, f.body.stmts, 0), Op::Nil, f.body.rbrace),
        Op::Return,
        f.body.rbrace,
    )
}

/// The code for an initializer body, then a return of the instance.
pub open spec fn asm_initializer(t: AsmTables, a: Asm, f: Function) -> Option<Asm> {
    then_emit(
        then_emit(asm_stmts(t, Asm { global: false, ..a }, f.body.stmts, 0), Op::GetLocal { local_index: 0 }, f.body.rbrace),
        Op::Return,
        f.body.rbrace,
    )
}

/// A copy of `bytes`.
pub(crate) fn copy_bytes(bytes: &Vec<u8>) -> (r: Vec<u8>)
    ensures
        r@ == bytes@,
{
    let mut r: Vec<u8> = Vec::new();
    let mut i: usize = 0;
    while i < bytes.len()
        invariant
            i <= bytes@.len(),
            r@ == bytes@.subrange(0, i as int),
        decreases bytes@.len() - i,
    {
        r.push(bytes[i]);
        i += 1;
        proof {
            assert(r@ =~= bytes@.subrange(0, i as int));
        }
    }
    proof {
        assert(bytes@.subrange(0, i as int) =~= bytes@);
    }
    r
}

/// Emits the code of a program or of function bodies into a chunk.
pub struct AssemblyPass<'ast> {
    resolutions: &'ast Vec<Resolution>,
    block_locals: &'ast Vec<Vec<LocalDeclaration>>,
    strings: Vec<(Vec<u8>, usize)>,
    is_at_global_scope: bool,
    chunk: Chunk,
}

pub open spec fn tables_of(resolutions: Seq<Resolution>, block_locals: Seq<Vec<LocalDeclaration>>) -> AsmTables {
    AsmTables {
        resolutions,
        block_locals: block_locals.map_values(|v: Vec<LocalDeclaration>| v@),
    }
}

/// The state of assembling into `chunk` with a fresh string table.
pub open spec fn chunk_state(chunk: Chunk, global: bool) -> Asm {
    Asm {
        code: chunk.code(),
        spans: chunk.byte_spans(),
        constants: chunk.constant_table().map_values(|c: Constant| constant_view(c)),
        strings: Seq::empty(),
        global,
    }
}

impl<'ast> AssemblyPass<'ast> {
    pub closed spec fn tables(&self) -> AsmTables {
        tables_of(self.resolutions@, self.block_locals@)
    }

    pub closed spec fn state(&self) -> Asm {
        Asm {
            code: self.chunk.code(),
            spans: self.chunk.byte_spans(),
            constants: self.chunk.constant_table().map_values(|c: Constant| constant_view(c)),
            strings: self.strings@.map_values(|e: (Vec<u8>, usize)| (e.0@, e.1)),
            global: self.is_at_global_scope,
        }
    }

    pub closed spec fn wf(&self) -> bool {
        self.chunk.wf()
    }

    /// A pass that appends to `chunk`, reading name resolution's tables.
    pub fn new(
        resolutions: &'ast Vec<Resolution>,
        block_locals: &'ast Vec<Vec<LocalDeclaration>>,
        chunk: Chunk,
    ) -> (r: Self)
        requires
            chunk.wf(),
        ensures
            r.wf(),
            r.tables() == tables_of(resolutions@, block_locals@),
            r.state() == chunk_state(chunk, true),
    {
        let r = AssemblyPass { resolutions, block_locals, strings: Vec::new(), is_at_global_scope: true, chunk };
        proof {
            assert(r.state().strings =~= Seq::<(Seq<u8>, usize)>::empty());
        }
        r
    }

    /// Appends an instruction, unless the code would outgrow a `usize`.
    fn encode(&mut self, op: Op, span: Span) -> (ok: bool)
        requires
            old(self).wf(),
        ensures
            final(self).wf(),
            final(self).tables() == old(self).tables(),
            ok == emit(old(self).state(), op, span) is Some,
            ok ==> Some(final(self).state()) == emit(old(self).state(), op, span),
    {
        let n = encoded_len(&op);
        if self.chunk.current() > usize::MAX - n {
            return false;
        }
        let ghost s0 = self.state();
        self.chunk.encode(op, span);
        proof {
            assert(self.state() =~= emit(s0, op, span).unwrap());
        }
        true
    }

    /// Appends a jump and gives the offset its distance counts from.
    fn encode_jump(&mut self, op: Op, span: Span) -> (r: Option<usize>)
        requires
            old(self).wf(),
        ensures
            final(self).wf(),
            final(self).tables() == old(self).tables(),
            r is Some == emit(old(self).state(), op, span) is Some,
            r is Some ==> Some(final(self).state()) == emit(old(self).state(), op, span)
                && r.unwrap() == final(self).state().code.len(),
    {
        if self.encode(op, span) {
            Some(self.chunk.current())
        } else {
            None
        }
    }

    /// Points the jump whose distance counts from `target` at the end of the
    /// code, unless it does not reach that far.
    fn patch_jump(&mut self, target: usize) -> (ok: bool)
        requires
            old(self).wf(),
        ensures
            final(self).wf(),
            final(self).tables() == old(self).tables(),
            ok == patch(old(self).state(), target as int) is Some,
            ok ==> Some(final(self).state()) == patch(old(self).state(), target as int),
    {
        let current = self.chunk.current();
        if target < 2 || target > current || current - target > U16::MAX {
            return false;
        }
        let ghost s0 = self.state();
        self.chunk.patch_jump(target);
        proof {
            assert(self.state() =~= patch(s0, target as int).unwrap());
        }
        true
    }

    /// The constant index of the string `s`, added unless it was.
    fn add_string(&mut self, s: &Vec<u8>) -> (r: usize)
        requires
            old(self).wf(),
        ensures
            final(self).wf(),
            final(self).tables() == old(self).tables(),
            (final(self).state(), r as int) == add_string(old(self).state(), s@),
    {
        let ghost s0 = self.state();
        let mut i: usize = 0;
        while i < self.strings.len()
            invariant
                i <= self.strings@.len(),
                s0 == self.state(),
                *self == *old(self),
                old(self).wf(),
                forall|j: int| 0 <= j < i ==> (#[trigger] self.strings@[j]).0@ != s@,
            decreases self.strings@.len() - i,
        {
            if crate::resolver::bytes_equal(self.strings[i].0.as_slice(), s.as_slice()) {
                proof {
                    lemma_string_index_found(s0.strings, s@, i as int);
                }
                return self.strings[i].1;
            }
            i += 1;
        }
        proof {
            lemma_string_index_absent(s0.strings, s@, s0.strings.len() as int);
            assert(s0.strings.subrange(0, s0.strings.len() as int) =~= s0.strings);
        }
        let copy = copy_bytes(s);
        let ghost strings0 = self.strings@;
        let ghost table0 = self.chunk.constant_table();
        let value = copy_bytes(s);
        let ghost c = Constant::String(value);
        let constant_index = self.chunk.add_constant(Constant::String(value));
        self.strings.push((copy, constant_index));
        proof {
            assert(constant_view(c) == (1int, s@, 0usize));
            assert(self.chunk.constant_table().map_values(|c: Constant| constant_view(c)) =~= table0.map_values(
                |c: Constant| constant_view(c),
            ).push(constant_view(c)));
            assert(self.strings@.map_values(|e: (Vec<u8>, usize)| (e.0@, e.1)) =~= strings0.map_values(
                |e: (Vec<u8>, usize)| (e.0@, e.1),
            ).push((s@, constant_index)));
            assert(self.state() =~= add_string(s0, s@).0);
        }
        constant_index
    }
}

proof fn lemma_string_index_absent(strings: Seq<(Seq<u8>, usize)>, key: Seq<u8>, k: int)
    requires
        0 <= k <= strings.len(),
        forall|j: int| 0 <= j < k ==> (#[trigger] strings[j]).0 != key,
    ensures
        string_index(strings.subrange(0, k), key) == -1,
    decreases k,
{
    if k > 0 {
        assert(strings.subrange(0, k).drop_last() =~= strings.subrange(0, k - 1));
        lemma_string_index_absent(strings, key, k - 1);
    }
}

proof fn lemma_string_index_found(strings: Seq<(Seq<u8>, usize)>, key: Seq<u8>, i: int)
    requires
        0 <= i < strings.len(),
        strings[i].0 == key,
        forall|j: int| 0 <= j < i ==> (#[trigger] strings[j]).0 != key,
    ensures
        string_index(strings, key) == i,
    decreases strings.len(),
{
    if i < strings.len() - 1 {
        lemma_string_index_found(strings.drop_last(), key, i);
    } else {
        lemma_string_index_absent(strings, key, i);
        assert(strings.subrange(0, i) =~= strings.drop_last());
    }
}

impl<'ast> AssemblyPass<'ast> {
    /// Emits an instruction whose operand is the constant index of `s`.
    fn encode_string(&mut self, s: &Vec<u8>, kind: u8, span: Span) -> (ok: bool)
        requires
            old(self).wf(),
        ensures
            final(self).wf(),
            final(self).tables() == old(self).tables(),
            ok == emit_string(old(self).state(), s@, kind as int, span) is Some,
            ok ==> Some(final(self).state()) == emit_string(old(self).state(), s@, kind as int, span),
    {
        let c = self.add_string(s);
        if c > U24::MAX {
            return false;
        }
        let op = if kind == 0 {
            Op::constant(c)
        } else if kind == 1 {
            Op::define_global(c)
        } else if kind == 2 {
            Op::get_global(c)
        } else if kind == 3 {
            Op::set_global(c)
        } else if kind == 4 {
            Op::get_field(c)
        } else {
            Op::set_field(c)
        };
        self.encode(op, span)
    }

    fn define_if_global(&mut self, identifier: &'ast Identifier) -> (ok: bool)
        requires
            old(self).wf(),
        ensures
            final(self).wf(),
            final(self).tables() == old(self).tables(),
            ok == define_if_global(Some(old(self).state()), *identifier) is Some,
            ok ==> Some(final(self).state()) == define_if_global(Some(old(self).state()), *identifier),
    {
        if self.is_at_global_scope {
            self.encode_string(&identifier.value, 1, identifier.span)
        } else {
            true
        }
    }

    /// Loads the variable that the name use `index` resolved to.
    fn resolve(&mut self, index: usize, span: Span, name: Option<&'ast Vec<u8>>) -> (ok: bool)
        requires
            old(self).wf(),
        ensures
            final(self).wf(),
            final(self).tables() == old(self).tables(),
            ok == load(old(self).tables(), old(self).state(), index, span, match name {
                Some(v) => Some(v@),
                None => None,
            }) is Some,
            ok ==> Some(final(self).state()) == load(old(self).tables(), old(self).state(), index, span, match name {
                Some(v) => Some(v@),
                None => None,
            }),
    {
        if index >= self.resolutions.len() {
            return false;
        }
        match self.resolutions[index] {
            Resolution::Local { local_index } => {
                if local_index > U24::MAX {
                    return false;
                }
                self.encode(Op::get_local(local_index), span)
            },
            Resolution::Upvalue { upvalue_index } => {
                if upvalue_index > U24::MAX {
                    return false;
                }
                self.encode(Op::get_upvalue(upvalue_index), span)
            },
            Resolution::Global => match name {
                Some(value) => self.encode_string(value, 2, span),
                None => false,
            },
        }
    }

    /// Stores into the variable that the assigned name `index` resolved to.
    fn store(&mut self, index: usize, name_span: Span, equal: Span, name: &'ast Vec<u8>) -> (ok: bool)
        requires
            old(self).wf(),
        ensures
            final(self).wf(),
            final(self).tables() == old(self).tables(),
            ok == store(old(self).tables(), old(self).state(), index, name_span, equal, name@) is Some,
            ok ==> Some(final(self).state()) == store(old(self).tables(), old(self).state(), index, name_span, equal, name@),
    {
        if index >= self.resolutions.len() {
            return false;
        }
        match self.resolutions[index] {
            Resolution::Local { local_index } => {
                if local_index > U24::MAX {
                    return false;
                }
                self.encode(Op::set_local(local_index), name_span)
            },
            Resolution::Upvalue { upvalue_index } => {
                if upvalue_index > U24::MAX {
                    return false;
                }
                self.encode(Op::set_upvalue(upvalue_index), name_span)
            },
            Resolution::Global => self.encode_string(name, 3, equal),
        }
    }

    /// The instructions of a binary operator other than `and` and `or`.
    fn encode_binary(&mut self, operator: &BinaryOperator) -> (ok: bool)
        requires
            old(self).wf(),
        ensures
            final(self).wf(),
            final(self).tables() == old(self).tables(),
            ok == binary_ops(old(self).state(), *operator) is Some,
            ok ==> Some(final(self).state()) == binary_ops(old(self).state(), *operator),
    {
        match operator {
            BinaryOperator::Greater(span) => self.encode(Op::Greater, *span),
            BinaryOperator::GreaterEqual(span) => self.encode(Op::Less, *span) && self.encode(Op::Not, *span),
            BinaryOperator::Less(span) => self.encode(Op::Less, *span),
            BinaryOperator::LessEqual(span) => self.encode(Op::Greater, *span) && self.encode(Op::Not, *span),
            BinaryOperator::NotEqual(span) => self.encode(Op::Equal, *span) && self.encode(Op::Not, *span),
            BinaryOperator::Equal(span) => self.encode(Op::Equal, *span),
            BinaryOperator::Subtract(span) => self.encode(Op::Subtract, *span),
            BinaryOperator::Add(span) => self.encode(Op::Add, *span),
            BinaryOperator::Divide(span) => self.encode(Op::Divide, *span),
            BinaryOperator::Multiply(span) => self.encode(Op::Multiply, *span),
            _ => true,
        }
    }

    fn visit_expr(&mut self, e: &'ast Expr) -> (ok: bool)
        requires
            old(self).wf(),
        ensures
            final(self).wf(),
            final(self).tables() == old(self).tables(),
            ok == asm_expr(old(self).tables(), old(self).state(), *e) is Some,
            ok ==> Some(final(self).state()) == asm_expr(old(self).tables(), old(self).state(), *e),
        decreases e,
    {
        match e {
            Expr::Literal(x) => match &x.literal {
                Literal::Float { span, value } => {
                    let ghost s0 = self.state();
                    let ghost table0 = self.chunk.constant_table();
                    let copy = copy_bytes(value);
                    let ghost cc = Constant::Float(copy);
                    let constant_index = self.chunk.add_constant(Constant::Float(copy));
                    proof {
                        assert(constant_view(cc) == (0int, value@, 0usize));
                        assert(self.chunk.constant_table().map_values(|c: Constant| constant_view(c)) =~= table0.map_values(
                            |c: Constant| constant_view(c),
                        ).push(constant_view(cc)));
                        assert(self.state() =~= Asm { constants: s0.constants.push((0, value@, 0usize)), ..s0 });
                    }
                    if constant_index > U24::MAX {
                        return false;
                    }
                    self.encode(Op::constant(constant_index), *span)
                },
                Literal::String { span, value } => self.encode_string(value, 0, *span),
                Literal::True(span) => self.encode(Op::True, *span),
                Literal::False(span) => self.encode(Op::False, *span),
                Literal::Nil(span) => self.encode(Op::Nil, *span),
            },
            Expr::Unary(x) => {
                if !self.visit_expr(&x.inner) {
                    return false;
                }
                match &x.operator {
                    UnaryOperator::Not(span) => self.encode(Op::Not, *span),
                    UnaryOperator::Negate(span) => self.encode(Op::Negate, *span),
                }
            },
            Expr::Binary(x) => match &x.operator {
                BinaryOperator::And(span) => {
                    if !self.visit_expr(&x.left) {
                        return false;
                    }
                    let to_end = match self.encode_jump(Op::JumpIfFalse { distance: 0 }, *span) {
                        Some(to_end) => to_end,
                        None => return false,
                    };
                    if !self.encode(Op::Pop, *span) {
                        return false;
                    }
                    if !self.visit_expr(&x.right) {
                        return false;
                    }
                    self.patch_jump(to_end)
                },
                BinaryOperator::Or(span) => {
                    if !self.visit_expr(&x.left) {
                        return false;
                    }
                    let to_rhs = match self.encode_jump(Op::JumpIfFalse { distance: 0 }, *span) {
                        Some(to_rhs) => to_rhs,
                        None => return false,
                    };
                    let to_end = match self.encode_jump(Op::Jump { distance: 0 }, *span) {
                        Some(to_end) => to_end,
                        None => return false,
                    };
                    if !self.patch_jump(to_rhs) {
                        return false;
                    }
                    if !self.visit_expr(&x.right) {
                        return false;
                    }
                    self.patch_jump(to_end)
                },
                _ => self.visit_expr(&x.left) && self.visit_expr(&x.right) && self.encode_binary(&x.operator),
            },
            Expr::Grouping(x) => self.visit_expr(&x.inner),
            Expr::Variable(x) => self.resolve(
                x.name.decoration.index(),
                x.name.identifier.span,
                Some(&x.name.identifier.value),
            ),
            Expr::Assign(x) => self.visit_expr(&x.expr) && self.store(
                x.name.decoration.index(),
                x.name.identifier.span,
                x.equal,
                &x.name.identifier.value,
            ),
            Expr::Call(x) => {
                if x.arguments.values.len() == usize::MAX {
                    return false;
                }
                let span = Span::across(&*x.target, &x.rparen);
                if !self.encode(Op::PushFrame, span) {
                    return false;
                }
                if !self.visit_expr(&x.target) {
                    return false;
                }
                if !self.visit_args(&x.arguments) {
                    return false;
                }
                let arity = x.arguments.len();
                self.encode(Op::Call { arity }, span)
            },
            Expr::Get(x) => self.visit_expr(&x.target) && self.encode_string(&x.field.value, 4, x.field.span),
            Expr::SetField(x) => self.visit_expr(&x.expr) && self.visit_expr(&x.target) && self.encode_string(
                &x.field.value,
                5,
                x.field.span,
            ),
            Expr::This(x) => self.resolve(x.decoration.index(), x.this, None),
            Expr::Super(_) => true,
        }
    }

    fn visit_args(&mut self, p: &'ast Punctuated<Expr, Span>) -> (ok: bool)
        requires
            old(self).wf(),
        ensures
            final(self).wf(),
            final(self).tables() == old(self).tables(),
            ok == asm_args(old(self).tables(), old(self).state(), *p, 0) is Some,
            ok ==> Some(final(self).state()) == asm_args(old(self).tables(), old(self).state(), *p, 0),
        decreases p,
    {
        let ghost t = self.tables();
        let n = p.values.len();
        let mut i: usize = 0;
        while i < n
            invariant
                i <= n,
                n == p.values@.len(),
                self.wf(),
                self.tables() == t,
                t == old(self).tables(),
                asm_args(t, old(self).state(), *p, 0) == asm_args(t, self.state(), *p, i as int),
            decreases n - i,
        {
            if !self.visit_expr(&p.values[i].0) {
                return false;
            }
            i += 1;
        }
        match &p.last {
            Some(last) => self.visit_expr(last),
            None => true,
        }
    }
}

impl<'ast> AssemblyPass<'ast> {
    /// Pops the locals of a block, last declared first.
    fn pop_locals(&mut self, locals: &Vec<LocalDeclaration>, span: Span) -> (ok: bool)
        requires
            old(self).wf(),
        ensures
            final(self).wf(),
            final(self).tables() == old(self).tables(),
            ok == pop_locals(old(self).state(), locals@, span) is Some,
            ok ==> Some(final(self).state()) == pop_locals(old(self).state(), locals@, span),
    {
        let mut k = locals.len();
        proof {
            assert(locals@.subrange(0, k as int) =~= locals@);
        }
        while k > 0
            invariant
                k <= locals@.len(),
                self.wf(),
                self.tables() == old(self).tables(),
                pop_locals(old(self).state(), locals@, span) == pop_locals(
                    self.state(),
                    locals@.subrange(0, k as int),
                    span,
                ),
            decreases k,
        {
            proof {
                assert(locals@.subrange(0, k as int).drop_last() =~= locals@.subrange(0, k - 1));
                assert(locals@.subrange(0, k as int).last() == locals@[k - 1]);
            }
            let ok = match locals[k - 1] {
                LocalDeclaration::Local => self.encode(Op::Pop, span),
                LocalDeclaration::Capture => self.encode(Op::CloseLocal, span),
            };
            if !ok {
                return false;
            }
            k -= 1;
        }
        true
    }

    fn visit_stmts(&mut self, stmts: &'ast Vec<Stmt>) -> (ok: bool)
        requires
            old(self).wf(),
        ensures
            final(self).wf(),
            final(self).tables() == old(self).tables(),
            ok == asm_stmts(old(self).tables(), old(self).state(), *stmts, 0) is Some,
            ok ==> Some(final(self).state()) == asm_stmts(old(self).tables(), old(self).state(), *stmts, 0),
        decreases stmts,
    {
        let ghost t = self.tables();
        let n = stmts.len();
        let mut i: usize = 0;
        while i < n
            invariant
                i <= n,
                n == stmts@.len(),
                self.wf(),
                self.tables() == t,
                t == old(self).tables(),
                asm_stmts(t, old(self).state(), *stmts, 0) == asm_stmts(t, self.state(), *stmts, i as int),
            decreases n - i,
        {
            if !self.visit_stmt(&stmts[i]) {
                return false;
            }
            i += 1;
        }
        true
    }

    #[verifier::spinoff_prover]
    #[verifier::rlimit(100)]
    fn visit_stmt(&mut self, stmt: &'ast Stmt) -> (ok: bool)
        requires
            old(self).wf(),
        ensures
            final(self).wf(),
            final(self).tables() == old(self).tables(),
            ok == asm_stmt(old(self).tables(), old(self).state(), *stmt) is Some,
            ok ==> Some(final(self).state()) == asm_stmt(old(self).tables(), old(self).state(), *stmt),
        decreases stmt,
    {
        match stmt {
            Stmt::VarDecl(x) => {
                let ok = match &x.assignment {
                    Some(assignment) => self.visit_expr(&assignment.expr),
                    None => self.encode(Op::Nil, x.var),
                };
                ok && self.define_if_global(&x.identifier)
            },
            Stmt::FunDecl(x) => {
                let index = x.function.decoration.index();
                if index > U24::MAX {
                    return false;
                }
                self.encode(Op::close_function(index), x.fun) && self.define_if_global(&x.identifier)
            },
            Stmt::ClassDecl(x) => {
                let index = x.class_decoration.index();
                if index > U24::MAX {
                    return false;
                }
                let span = Span::across(&x.class, &x.rbrace);
                self.encode(Op::class(index), span) && self.define_if_global(&x.identifier)
            },
            Stmt::Expr(x) => self.visit_expr(&x.expr) && self.encode(Op::Pop, x.semi),
            Stmt::Print(x) => self.visit_expr(&x.expr) && self.encode(Op::Print, x.print),
            Stmt::Block(x) => self.visit_block(x),
            Stmt::If(x) => self.visit_if(x),
            Stmt::While(x) => self.visit_while(x),
            Stmt::Return(x) => {
                let ok = match &x.expr {
                    Some(expr) => self.visit_expr(expr),
                    None => true,
                };
                ok && self.encode(Op::Return, x.return_)
            },
        }
    }

    fn visit_block(&mut self, x: &'ast BlockStmt) -> (ok: bool)
        requires
            old(self).wf(),
        ensures
            final(self).wf(),
            final(self).tables() == old(self).tables(),
            ok == asm_stmt(old(self).tables(), old(self).state(), Stmt::Block(*x)) is Some,
            ok ==> Some(final(self).state()) == asm_stmt(old(self).tables(), old(self).state(), Stmt::Block(*x)),
        decreases x,
    {
        let index = x.decoration.index();
        if index >= self.block_locals.len() {
            return false;
        }
        let was_at_global_scope = self.is_at_global_scope;
        self.is_at_global_scope = false;
        if !self.visit_stmts(&x.stmts) {
            return false;
        }
        if !self.pop_locals(&self.block_locals[index], x.rbrace) {
            return false;
        }
        self.is_at_global_scope = was_at_global_scope;
        true
    }

    #[verifier::spinoff_prover]
    fn visit_if(&mut self, x: &'ast IfStmt) -> (ok: bool)
        requires
            old(self).wf(),
        ensures
            final(self).wf(),
            final(self).tables() == old(self).tables(),
            ok == asm_stmt(old(self).tables(), old(self).state(), Stmt::If(*x)) is Some,
            ok ==> Some(final(self).state()) == asm_stmt(old(self).tables(), old(self).state(), Stmt::If(*x)),
        decreases x,
    {
        if !self.visit_expr(&x.condition.inner) {
            return false;
        }
        let to_false = match self.encode_jump(Op::JumpIfFalse { distance: 0 }, x.if_) {
            Some(to_false) => to_false,
            None => return false,
        };
        if !self.encode(Op::Pop, x.if_) {
            return false;
        }
        if !self.visit_stmt(&x.stmt) {
            return false;
        }
        match &x.else_clause {
            Some(else_clause) => {
                let to_end = match self.encode_jump(Op::Jump { distance: 0 }, else_clause.else_) {
                    Some(to_end) => to_end,
                    None => return false,
                };
                if !self.patch_jump(to_false) {
                    return false;
                }
                if !self.encode(Op::Pop, else_clause.else_) {
                    return false;
                }
                if !self.visit_stmt(&else_clause.stmt) {
                    return false;
                }
                self.patch_jump(to_end)
            },
            None => self.patch_jump(to_false) && self.encode(Op::Pop, x.if_),
        }
    }

    #[verifier::spinoff_prover]
    #[verifier::rlimit(100)]
    fn visit_while(&mut self, x: &'ast WhileStmt) -> (ok: bool)
        requires
            old(self).wf(),
        ensures
            final(self).wf(),
            final(self).tables() == old(self).tables(),
            ok == asm_stmt(old(self).tables(), old(self).state(), Stmt::While(*x)) is Some,
            ok ==> Some(final(self).state()) == asm_stmt(old(self).tables(), old(self).state(), Stmt::While(*x)),
        decreases x,
    {
        let ghost t = self.tables();
        let ghost s0 = self.state();
        let start = self.chunk.current();
        if !self.visit_expr(&x.expr) {
            return false;
        }
        let to_end = match self.encode_jump(Op::JumpIfFalse { distance: 0 }, x.while_) {
            Some(to_end) => to_end,
            None => return false,
        };
        let ghost s2 = self.state();
        if !self.encode(Op::Pop, x.while_) {
            return false;
        }
        if !self.visit_stmt(&x.body) {
            return false;
        }
        let ghost s4 = self.state();
        let current = self.chunk.current();
        if start > current || current > usize::MAX - 3 {
            return false;
        }
        proof {
            assert(asm_stmt(t, s0, Stmt::While(*x)) == then_emit(
                then_patch(emit_loop(Some(s4), s0.code.len() as int, x.while_), s2.code.len() as int),
                Op::Pop,
                x.while_,
            ));
            crate::codec::lemma_le_bytes_len((s4.code.len() - start + 3) as usize as int, 2);
        }
        self.chunk.encode_loop(start, x.while_);
        proof {
            assert(self.state() =~= emit_loop(Some(s4), start as int, x.while_).unwrap());
        }
        self.patch_jump(to_end) && self.encode(Op::Pop, x.while_)
    }

    /// Appends the code of a program: its statements at top level, then a
    /// return of nil; gives back the chunk, or `None` where a jump, an
    /// operand or the code does not fit.
    pub fn try_compile_program(self, program: &'ast Program) -> (r: Option<Chunk>)
        requires
            self.wf(),
        ensures
            r is Some == asm_program(self.tables(), self.state(), *program) is Some,
            r is Some ==> r.unwrap().wf() && r.unwrap().code() == asm_program(
                self.tables(),
                self.state(),
                *program,
            ).unwrap().code && r.unwrap().byte_spans() == asm_program(self.tables(), self.state(), *program).unwrap().spans
                && r.unwrap().constant_table().map_values(|c: Constant| constant_view(c)) == asm_program(
                self.tables(),
                self.state(),
                *program,
            ).unwrap().constants,
    {
        let mut this = self;
        this.is_at_global_scope = true;
        if this.visit_stmts(&program.stmts) && this.encode(Op::Nil, program.eof) && this.encode(Op::Return, program.eof) {
            Some(this.chunk)
        } else {
            None
        }
    }

    /// Appends the code of a function body, then a return of nil; gives back
    /// the chunk, or `None` where a jump, an operand or the code does not
    /// fit.
    pub fn try_compile_function(self, function: &'ast Function) -> (r: Option<Chunk>)
        requires
            self.wf(),
        ensures
            r is Some == asm_function(self.tables(), self.state(), *function) is Some,
            r is Some ==> r.unwrap().wf() && r.unwrap().code() == asm_function(
                self.tables(),
                self.state(),
                *function,
            ).unwrap().code && r.unwrap().byte_spans() == asm_function(self.tables(), self.state(), *function).unwrap().spans
                && r.unwrap().constant_table().map_values(|c: Constant| constant_view(c)) == asm_function(
                self.tables(),
                self.state(),
                *function,
            ).unwrap().constants,
    {
        let mut this = self;
        this.is_at_global_scope = false;
        if this.visit_stmts(&function.body.stmts) && this.encode(Op::Nil, function.body.rbrace) && this.encode(
            Op::Return,
            function.body.rbrace,
        ) {
            Some(this.chunk)
        } else {
            None
        }
    }

    /// Appends the code of a program: its statements at top level, then a
    /// return of nil; gives back the chunk.
    pub fn compile_program(self, program: &'ast Program) -> (r: Chunk)
        requires
            self.wf(),
            asm_program(self.tables(), self.state(), *program) is Some,
        ensures
            r.wf(),
            r.code() == asm_program(self.tables(), self.state(), *program).unwrap().code,
            r.byte_spans() == asm_program(self.tables(), self.state(), *program).unwrap().spans,
            r.constant_table().map_values(|c: Constant| constant_view(c)) == asm_program(
                self.tables(),
                self.state(),
                *program,
            ).unwrap().constants,
    {
        match self.try_compile_program(program) {
            Some(chunk) => chunk,
            None => {
                assert(false);
                Chunk::new()
            },
        }
    }

    /// Appends the code of a function body, then a return of nil; gives back
    /// the chunk.
    pub fn compile_function(self, function: &'ast Function) -> (r: Chunk)
        requires
            self.wf(),
            asm_function(self.tables(), self.state(), *function) is Some,
        ensures
            r.wf(),
            r.code() == asm_function(self.tables(), self.state(), *function).unwrap().code,
            r.byte_spans() == asm_function(self.tables(), self.state(), *function).unwrap().spans,
            r.constant_table().map_values(|c: Constant| constant_view(c)) == asm_function(
                self.tables(),
                self.state(),
                *function,
            ).unwrap().constants,
    {
        match self.try_compile_function(function) {
            Some(chunk) => chunk,
            None => {
                assert(false);
                Chunk::new()
            },
        }
    }

    /// Appends the code of an initializer body, then a return of the
    /// instance; gives back the chunk.
    pub fn compile_initializer(self, function: &'ast Function) -> (r: Chunk)
        requires
            self.wf(),
            asm_initializer(self.tables(), self.state(), *function) is Some,
        ensures
            r.wf(),
            r.code() == asm_initializer(self.tables(), self.state(), *function).unwrap().code,
            r.byte_spans() == asm_initializer(self.tables(), self.state(), *function).unwrap().spans,
            r.constant_table().map_values(|c: Constant| constant_view(c)) == asm_initializer(
                self.tables(),
                self.state(),
                *function,
            ).unwrap().constants,
    {
        let mut this = self;
        this.is_at_global_scope = false;
        this.visit_stmts(&function.body.stmts);
        this.encode(Op::get_local(0), function.body.rbrace);
        this.encode(Op::Return, function.body.rbrace);
        this.chunk
    }
}

/// The length of the encoding of `op`.
fn encoded_len(op: &Op) -> (r: usize)
    ensures
        r == op_encoding(*op).len(),
{
    proof {
        reveal_with_fuel(crate::codec::le_bytes, 4);
    }
    match *op {
        Op::Constant { .. }
        | Op::DefineGlobal { .. }
        | Op::GetGlobal { .. }
        | Op::SetGlobal { .. }
        | Op::GetLocal { .. }
        | Op::SetLocal { .. }
        | Op::Call { .. }
        | Op::CloseFunction { .. }
        | Op::GetUpvalue { .. }
        | Op::SetUpvalue { .. }
        | Op::Class { .. }
        | Op::GetField { .. }
        | Op::SetField { .. } => 2,
        Op::ConstantLong { .. }
        | Op::DefineGlobalLong { .. }
        | Op::GetGlobalLong { .. }
        | Op::SetGlobalLong { .. }
        | Op::GetLocalLong { .. }
        | Op::SetLocalLong { .. }
        | Op::CloseFunctionLong { .. }
        | Op::GetUpvalueLong { .. }
        | Op::SetUpvalueLong { .. }
        | Op::ClassLong { .. }
        | Op::GetFieldLong { .. }
        | Op::SetFieldLong { .. } => 4,
        Op::JumpIfFalse { .. } | Op::Jump { .. } | Op::Loop { .. } | Op::Invoke { .. } => 3,
        Op::InvokeLong { .. } => 5,
        _ => 1,
    }
}

} // verus!
