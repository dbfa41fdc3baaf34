use vstd::prelude::*;
use vstd::string::StringSliceAdditionalSpecFns;

use crate::chunk::{Chunk, Constant};
use crate::diagnostic::{decimal, hex, lemma_decimal_digits, lemma_decimal_injective, push_bytes, push_decimal, push_hex, push_repeat, push_str, repeat_byte};
use crate::op::{op_decode, opcode, Op};
use crate::codec::Codec;
use crate::span::Span;

verus! {

/// Where a captured variable lives in the enclosing function.
#[derive(Clone, Copy, Debug, PartialEq, Eq, Structural)]
pub enum Place {
    Local { local_index: usize },
    Upvalue { upvalue_index: usize },
}

/// A compiled function: its name, its arity, where its code starts and what
/// it captures.
pub struct FunctionDef {
    pub name: Vec<u8>,
    pub arity: usize,
    pub ip: usize,
    pub captures: Vec<Place>,
}

/// A compiled class: its name and the function index of each method.
pub struct ClassDef {
    pub name: Vec<u8>,
    pub methods: Vec<(Vec<u8>, usize)>,
    pub has_superclass: bool,
}

/// A compiled program.
pub struct Executable {
    pub chunk: Chunk,
    pub functions: Vec<FunctionDef>,
    pub classes: Vec<ClassDef>,
}

/// An offset in hexadecimal, padded with zeros to four digits.
pub open spec fn offset_text(n: nat) -> Seq<u8> {
    if hex(n).len() < 4 {
        repeat_byte(48, (4 - hex(n).len()) as nat) + hex(n)
    } else {
        hex(n)
    }
}

/// ` field=value`.
pub open spec fn field_text(field: Seq<u8>, value: nat) -> Seq<u8> {
    " ".spec_bytes() + field + "=".spec_bytes() + decimal(value)
}

pub open spec fn one_field(name: Seq<u8>, field: Seq<u8>, value: nat) -> Seq<u8> {
    name + " {".spec_bytes() + field_text(field, value) + " }".spec_bytes()
}

pub open spec fn two_fields(name: Seq<u8>, f1: Seq<u8>, v1: nat, f2: Seq<u8>, v2: nat) -> Seq<u8> {
    name + " {".spec_bytes() + field_text(f1, v1) + field_text(f2, v2) + " }".spec_bytes()
}

/// How an instruction is written: its name, then its operands in braces.
pub open spec fn op_text(op: Op) -> Seq<u8> {
    match op {
        Op::Return => "Return".spec_bytes(),
        Op::Nil => "Nil".spec_bytes(),
        Op::True => "True".spec_bytes(),
        Op::False => "False".spec_bytes(),
        Op::Constant { constant_index } => one_field("Constant".spec_bytes(), "constant_index".spec_bytes(), constant_index as nat),
        Op::ConstantLong { constant_index } => one_field("ConstantLong".spec_bytes(), "constant_index".spec_bytes(), constant_index as nat),
        Op::Not => "Not".spec_bytes(),
        Op::Negate => "Negate".spec_bytes(),
        Op::Add => "Add".spec_bytes(),
        Op::Subtract => "Subtract".spec_bytes(),
        Op::Multiply => "Multiply".spec_bytes(),
        Op::Divide => "Divide".spec_bytes(),
        Op::Equal => "Equal".spec_bytes(),
        Op::Greater => "Greater".spec_bytes(),
        Op::Less => "Less".spec_bytes(),
        Op::Print => "Print".spec_bytes(),
        Op::Pop => "Pop".spec_bytes(),
        Op::DefineGlobal { constant_index } => one_field("DefineGlobal".spec_bytes(), "constant_index".spec_bytes(), constant_index as nat),
        Op::DefineGlobalLong { constant_index } => one_field("DefineGlobalLong".spec_bytes(), "constant_index".spec_bytes(), constant_index as nat),
        Op::GetGlobal { constant_index } => one_field("GetGlobal".spec_bytes(), "constant_index".spec_bytes(), constant_index as nat),
        Op::GetGlobalLong { constant_index } => one_field("GetGlobalLong".spec_bytes(), "constant_index".spec_bytes(), constant_index as nat),
        Op::SetGlobal { constant_index } => one_field("SetGlobal".spec_bytes(), "constant_index".spec_bytes(), constant_index as nat),
        Op::SetGlobalLong { constant_index } => one_field("SetGlobalLong".spec_bytes(), "constant_index".spec_bytes(), constant_index as nat),
        Op::GetLocal { local_index } => one_field("GetLocal".spec_bytes(), "local_index".spec_bytes(), local_index as nat),
        Op::GetLocalLong { local_index } => one_field("GetLocalLong".spec_bytes(), "local_index".spec_bytes(), local_index as nat),
        Op::SetLocal { local_index } => one_field("SetLocal".spec_bytes(), "local_index".spec_bytes(), local_index as nat),
        Op::SetLocalLong { local_index } => one_field("SetLocalLong".spec_bytes(), "local_index".spec_bytes(), local_index as nat),
        Op::JumpIfFalse { distance } => one_field("JumpIfFalse".spec_bytes(), "distance".spec_bytes(), distance as nat),
        Op::Jump { distance } => one_field("Jump".spec_bytes(), "distance".spec_bytes(), distance as nat),
        Op::Loop { distance } => one_field("Loop".spec_bytes(), "distance".spec_bytes(), distance as nat),
        Op::PushFrame => "PushFrame".spec_bytes(),
        Op::Call { arity } => one_field("Call".spec_bytes(), "arity".spec_bytes(), arity as nat),
        Op::CloseFunction { function_index } => one_field("CloseFunction".spec_bytes(), "function_index".spec_bytes(), function_index as nat),
        Op::CloseFunctionLong { function_index } => one_field("CloseFunctionLong".spec_bytes(), "function_index".spec_bytes(), function_index as nat),
        Op::CloseLocal => "CloseLocal".spec_bytes(),
        Op::GetUpvalue { upvalue_index } => one_field("GetUpvalue".spec_bytes(), "upvalue_index".spec_bytes(), upvalue_index as nat),
        Op::GetUpvalueLong { upvalue_index } => one_field("GetUpvalueLong".spec_bytes(), "upvalue_index".spec_bytes(), upvalue_index as nat),
        Op::SetUpvalue { upvalue_index } => one_field("SetUpvalue".spec_bytes(), "upvalue_index".spec_bytes(), upvalue_index as nat),
        Op::SetUpvalueLong { upvalue_index } => one_field("SetUpvalueLong".spec_bytes(), "upvalue_index".spec_bytes(), upvalue_index as nat),
        Op::Class { class_index } => one_field("Class".spec_bytes(), "class_index".spec_bytes(), class_index as nat),
        Op::ClassLong { class_index } => one_field("ClassLong".spec_bytes(), "class_index".spec_bytes(), class_index as nat),
        Op::GetField { constant_index } => one_field("GetField".spec_bytes(), "constant_index".spec_bytes(), constant_index as nat),
        Op::GetFieldLong { constant_index } => one_field("GetFieldLong".spec_bytes(), "constant_index".spec_bytes(), constant_index as nat),
        Op::SetField { constant_index } => one_field("SetField".spec_bytes(), "constant_index".spec_bytes(), constant_index as nat),
        Op::SetFieldLong { constant_index } => one_field("SetFieldLong".spec_bytes(), "constant_index".spec_bytes(), constant_index as nat),
        Op::Invoke { constant_index, arity } => two_fields("Invoke".spec_bytes(), "constant_index".spec_bytes(), constant_index as nat, "arity".spec_bytes(), arity as nat),
        Op::InvokeLong { constant_index, arity } => two_fields("InvokeLong".spec_bytes(), "constant_index".spec_bytes(), constant_index as nat, "arity".spec_bytes(), arity as nat),
    }
}

/// ` text` for the constant at `index`.
pub open spec fn constant_detail(texts: Seq<Seq<u8>>, index: usize) -> Option<Seq<u8>> {
    if index < texts.len() {
        Some(" ".spec_bytes() + texts[index as int])
    } else {
        None
    }
}

/// `name(arity)`.
pub open spec fn signature_text(name: Seq<u8>, arity: nat) -> Seq<u8> {
    name + "(".spec_bytes() + decimal(arity) + ")".spec_bytes()
}

/// What follows an instruction: the constant, function or class it names,
/// or the upvalue slot; `None` where that does not exist.
pub open spec fn op_detail(e: Executable, texts: Seq<Seq<u8>>, op: Op) -> Option<Seq<u8>> {
    match op {
        Op::Constant { constant_index } => constant_detail(texts, constant_index),
        Op::ConstantLong { constant_index } => constant_detail(texts, constant_index),
        Op::DefineGlobal { constant_index } => constant_detail(texts, constant_index),
        Op::DefineGlobalLong { constant_index } => constant_detail(texts, constant_index),
        Op::GetGlobal { constant_index } => constant_detail(texts, constant_index),
        Op::GetGlobalLong { constant_index } => constant_detail(texts, constant_index),
        Op::SetGlobal { constant_index } => constant_detail(texts, constant_index),
        Op::SetGlobalLong { constant_index } => constant_detail(texts, constant_index),
        Op::GetField { constant_index } => constant_detail(texts, constant_index),
        Op::GetFieldLong { constant_index } => constant_detail(texts, constant_index),
        Op::SetField { constant_index } => constant_detail(texts, constant_index),
        Op::SetFieldLong { constant_index } => constant_detail(texts, constant_index),
        Op::CloseFunction { function_index } => function_detail(e, function_index),
        Op::CloseFunctionLong { function_index } => function_detail(e, function_index),
        Op::Class { class_index } => class_detail(e, class_index),
        Op::ClassLong { class_index } => class_detail(e, class_index),
        Op::GetUpvalue { upvalue_index } => Some(" ".spec_bytes() + decimal(upvalue_index as nat)),
        Op::GetUpvalueLong { upvalue_index } => Some(" ".spec_bytes() + decimal(upvalue_index as nat)),
        Op::SetUpvalue { upvalue_index } => Some(" ".spec_bytes() + decimal(upvalue_index as nat)),
        Op::SetUpvalueLong { upvalue_index } => Some(" ".spec_bytes() + decimal(upvalue_index as nat)),
        Op::Invoke { constant_index, arity } => invoke_detail(texts, constant_index, arity),
        Op::InvokeLong { constant_index, arity } => invoke_detail(texts, constant_index, arity),
        _ => Some(seq![]),
    }
}

pub open spec fn function_detail(e: Executable, index: usize) -> Option<Seq<u8>> {
    if index < e.functions@.len() {
        let f = e.functions@[index as int];
        Some(" ".spec_bytes() + signature_text(f.name@, f.arity as nat))
    } else {
        None
    }
}

pub open spec fn class_detail(e: Executable, index: usize) -> Option<Seq<u8>> {
    if index < e.classes@.len() {
        Some(" ".spec_bytes() + e.classes@[index as int].name@)
    } else {
        None
    }
}

pub open spec fn invoke_detail(texts: Seq<Seq<u8>>, index: usize, arity: usize) -> Option<Seq<u8>> {
    if index < texts.len() {
        Some(" ".spec_bytes() + signature_text(texts[index as int], arity as nat))
    } else {
        None
    }
}

/// `   | ` where the byte at `ip` belongs to the same span as the byte
/// before, else the span's bounds `start..end `.
pub open spec fn span_column(chunk: Chunk, ip: int) -> Seq<u8> {
    let span = chunk.byte_spans()[ip];
    if ip > 0 && span == chunk.byte_spans()[ip - 1] {
        "   | ".spec_bytes()
    } else {
        decimal(span.spec_start() as nat) + "..".spec_bytes() + decimal(span.spec_end() as nat) + " ".spec_bytes()
    }
}

/// The line for the instruction at `ip`, and the offset after it; `None`
/// where no instruction decodes there or what it names does not exist.
pub open spec fn instruction_text(e: Executable, texts: Seq<Seq<u8>>, ip: int) -> Option<(Seq<u8>, int)> {
    if 0 <= ip < e.chunk.code().len() {
        match op_decode(e.chunk.code(), ip) {
            (Ok(op), next) => match op_detail(e, texts, op) {
                Some(detail) => Some(
                    (
                        offset_text(ip as nat) + " ".spec_bytes() + span_column(e.chunk, ip) + op_text(op) + detail
                            + "\n".spec_bytes(),
                        next,
                    ),
                ),
                None => None,
            },
            (Err(_), _) => None,
        }
    } else {
        None
    }
}

/// The header of the last function whose code starts at `ip`, among the
/// first `n`; empty if there is none.
pub open spec fn function_header(functions: Seq<FunctionDef>, n: int, ip: int) -> Seq<u8>
    decreases n,
{
    if n <= 0 {
        seq![]
    } else if functions[n - 1].ip == ip {
        signature_text(functions[n - 1].name@, functions[n - 1].arity as nat) + ":\n".spec_bytes()
    } else {
        function_header(functions, n - 1, ip)
    }
}

/// The listing of the code from `ip` on: each instruction on a line of its
/// own, after the header of a function that starts there.
pub open spec fn disassembly(e: Executable, texts: Seq<Seq<u8>>, ip: int) -> Option<Seq<u8>>
    decreases e.chunk.code().len() - ip,
{
    if ip < 0 {
        None
    } else if ip >= e.chunk.code().len() {
        Some(seq![])
    } else {
        match instruction_text(e, texts, ip) {
            Some((text, next)) => if ip < next <= e.chunk.code().len() {
                match disassembly(e, texts, next) {
                    Some(rest) => Some(function_header(e.functions@, e.functions@.len() as int, ip) + text + rest),
                    None => None,
                }
            } else {
                None
            },
            None => None,
        }
    }
}

/// The texts of a table of constants.
pub open spec fn texts_view(texts: Seq<Vec<u8>>) -> Seq<Seq<u8>> {
    texts.map_values(|t: Vec<u8>| t@)
}

/// How a constant is shown, where the library can say: a string as its
/// bytes, a function as `<fun index>`; a number is shown as the host prints
/// its double-precision value.
pub open spec fn constant_display(c: Constant) -> Option<Seq<u8>> {
    match c {
        Constant::Float(_) => None,
        Constant::String(s) => Some(s@),
        Constant::Function(index) => Some("<fun ".spec_bytes() + decimal(index as nat) + ">".spec_bytes()),
    }
}

fn push_offset(out: &mut Vec<u8>, n: usize)
    ensures
        final(out)@ == old(out)@ + offset_text(n as nat),
{
    let mut digits: Vec<u8> = Vec::new();
    push_hex(&mut digits, n);
    assert(digits@ =~= hex(n as nat));
    let ghost start = out@;
    if digits.len() < 4 {
        push_repeat(out, 48, 4 - digits.len());
    }
    push_bytes(out, digits.as_slice());
    assert(out@ =~= start + offset_text(n as nat));
}

fn push_field(out: &mut Vec<u8>, field: &str, value: usize)
    ensures
        final(out)@ == old(out)@ + field_text(field.spec_bytes(), value as nat),
{
    let ghost start = out@;
    push_str(out, " ");
    push_str(out, field);
    push_str(out, "=");
    push_decimal(out, value);
    assert(out@ =~= start + field_text(field.spec_bytes(), value as nat));
}

fn push_one_field(out: &mut Vec<u8>, name: &str, field: &str, value: usize)
    ensures
        final(out)@ == old(out)@ + one_field(name.spec_bytes(), field.spec_bytes(), value as nat),
{
    let ghost start = out@;
    push_str(out, name);
    push_str(out, " {");
    push_field(out, field, value);
    push_str(out, " }");
    assert(out@ =~= start + one_field(name.spec_bytes(), field.spec_bytes(), value as nat));
}

fn push_two_fields(out: &mut Vec<u8>, name: &str, f1: &str, v1: usize, f2: &str, v2: usize)
    ensures
        final(out)@ == old(out)@ + two_fields(name.spec_bytes(), f1.spec_bytes(), v1 as nat, f2.spec_bytes(), v2 as nat),
{
    let ghost start = out@;
    push_str(out, name);
    push_str(out, " {");
    push_field(out, f1, v1);
    push_field(out, f2, v2);
    push_str(out, " }");
    assert(out@ =~= start + two_fields(name.spec_bytes(), f1.spec_bytes(), v1 as nat, f2.spec_bytes(), v2 as nat));
}

/// Appends how `op` is written.
pub fn push_op_text(out: &mut Vec<u8>, op: &Op)
    ensures
        final(out)@ == old(out)@ + op_text(*op),
{
    match *op {
        Op::Return => push_str(out, "Return"),
        Op::Nil => push_str(out, "Nil"),
        Op::True => push_str(out, "True"),
        Op::False => push_str(out, "False"),
        Op::Constant { constant_index } => push_one_field(out, "Constant", "constant_index", constant_index),
        Op::ConstantLong { constant_index } => push_one_field(out, "ConstantLong", "constant_index", constant_index),
        Op::Not => push_str(out, "Not"),
        Op::Negate => push_str(out, "Negate"),
        Op::Add => push_str(out, "Add"),
        Op::Subtract => push_str(out, "Subtract"),
        Op::Multiply => push_str(out, "Multiply"),
        Op::Divide => push_str(out, "Divide"),
        Op::Equal => push_str(out, "Equal"),
        Op::Greater => push_str(out, "Greater"),
        Op::Less => push_str(out, "Less"),
        Op::Print => push_str(out, "Print"),
        Op::Pop => push_str(out, "Pop"),
        Op::DefineGlobal { constant_index } => push_one_field(out, "DefineGlobal", "constant_index", constant_index),
        Op::DefineGlobalLong { constant_index } => push_one_field(out, "DefineGlobalLong", "constant_index", constant_index),
        Op::GetGlobal { constant_index } => push_one_field(out, "GetGlobal", "constant_index", constant_index),
        Op::GetGlobalLong { constant_index } => push_one_field(out, "GetGlobalLong", "constant_index", constant_index),
        Op::SetGlobal { constant_index } => push_one_field(out, "SetGlobal", "constant_index", constant_index),
        Op::SetGlobalLong { constant_index } => push_one_field(out, "SetGlobalLong", "constant_index", constant_index),
        Op::GetLocal { local_index } => push_one_field(out, "GetLocal", "local_index", local_index),
        Op::GetLocalLong { local_index } => push_one_field(out, "GetLocalLong", "local_index", local_index),
        Op::SetLocal { local_index } => push_one_field(out, "SetLocal", "local_index", local_index),
        Op::SetLocalLong { local_index } => push_one_field(out, "SetLocalLong", "local_index", local_index),
        Op::JumpIfFalse { distance } => push_one_field(out, "JumpIfFalse", "distance", distance),
        Op::Jump { distance } => push_one_field(out, "Jump", "distance", distance),
        Op::Loop { distance } => push_one_field(out, "Loop", "distance", distance),
        Op::PushFrame => push_str(out, "PushFrame"),
        Op::Call { arity } => push_one_field(out, "Call", "arity", arity),
        Op::CloseFunction { function_index } => push_one_field(out, "CloseFunction", "function_index", function_index),
        Op::CloseFunctionLong { function_index } => push_one_field(out, "CloseFunctionLong", "function_index", function_index),
        Op::CloseLocal => push_str(out, "CloseLocal"),
        Op::GetUpvalue { upvalue_index } => push_one_field(out, "GetUpvalue", "upvalue_index", upvalue_index),
        Op::GetUpvalueLong { upvalue_index } => push_one_field(out, "GetUpvalueLong", "upvalue_index", upvalue_index),
        Op::SetUpvalue { upvalue_index } => push_one_field(out, "SetUpvalue", "upvalue_index", upvalue_index),
        Op::SetUpvalueLong { upvalue_index } => push_one_field(out, "SetUpvalueLong", "upvalue_index", upvalue_index),
        Op::Class { class_index } => push_one_field(out, "Class", "class_index", class_index),
        Op::ClassLong { class_index } => push_one_field(out, "ClassLong", "class_index", class_index),
        Op::GetField { constant_index } => push_one_field(out, "GetField", "constant_index", constant_index),
        Op::GetFieldLong { constant_index } => push_one_field(out, "GetFieldLong", "constant_index", constant_index),
        Op::SetField { constant_index } => push_one_field(out, "SetField", "constant_index", constant_index),
        Op::SetFieldLong { constant_index } => push_one_field(out, "SetFieldLong", "constant_index", constant_index),
        Op::Invoke { constant_index, arity } => push_two_fields(out, "Invoke", "constant_index", constant_index, "arity", arity),
        Op::InvokeLong { constant_index, arity } => push_two_fields(out, "InvokeLong", "constant_index", constant_index, "arity", arity),
    }
}

/// Appends `name(arity)`.
fn push_signature(out: &mut Vec<u8>, name: &[u8], arity: usize)
    ensures
        final(out)@ == old(out)@ + signature_text(name@, arity as nat),
{
    let ghost start = out@;
    push_bytes(out, name);
    push_str(out, "(");
    push_decimal(out, arity);
    push_str(out, ")");
    assert(out@ =~= start + signature_text(name@, arity as nat));
}

impl Constant {
    /// How a string or function constant is shown; `None` for a number,
    /// which is shown as the host prints its double-precision value.
    pub fn display(&self) -> (r: Option<Vec<u8>>)
        ensures
            match r {
                Some(v) => constant_display(*self) == Some(v@),
                None => constant_display(*self) is None,
            },
    {
        match self {
            Constant::Float(_) => None,
            Constant::String(s) => {
                let mut out: Vec<u8> = Vec::new();
                push_bytes(&mut out, s.as_slice());
                Some(out)
            },
            Constant::Function(index) => {
                let mut out: Vec<u8> = Vec::new();
                push_str(&mut out, "<fun ");
                push_decimal(&mut out, *index);
                push_str(&mut out, ">");
                assert(out@ =~= "<fun ".spec_bytes() + decimal(*index as nat) + ">".spec_bytes());
                Some(out)
            },
        }
    }
}

impl Executable {
    /// Appends the line for the instruction at `ip` and moves `ip` past it.
    /// `constant_texts` holds how each constant is shown.
    pub fn disassemble_instruction(&self, ip: &mut usize, constant_texts: &Vec<Vec<u8>>, out: &mut Vec<u8>)
        requires
            self.chunk.wf(),
            instruction_text(*self, texts_view(constant_texts@), *old(ip) as int) is Some,
        ensures
            final(out)@ == old(out)@ + instruction_text(*self, texts_view(constant_texts@), *old(ip) as int).unwrap().0,
            *final(ip) as int == instruction_text(*self, texts_view(constant_texts@), *old(ip) as int).unwrap().1,
    {
        self.try_instruction(ip, constant_texts, out);
    }

    /// Appends the line for the instruction at `ip` and moves `ip` past it;
    /// `false` where no instruction decodes there or what it names does not
    /// exist.
    fn try_instruction(&self, ip: &mut usize, constant_texts: &Vec<Vec<u8>>, out: &mut Vec<u8>) -> (ok: bool)
        requires
            self.chunk.wf(),
        ensures
            ok == instruction_text(*self, texts_view(constant_texts@), *old(ip) as int) is Some,
            ok ==> final(out)@ == old(out)@ + instruction_text(*self, texts_view(constant_texts@), *old(ip) as int).unwrap().0,
            ok ==> *final(ip) as int == instruction_text(*self, texts_view(constant_texts@), *old(ip) as int).unwrap().1,
    {
        let ghost texts = texts_view(constant_texts@);
        let ghost start = out@;
        let ghost ip0 = *ip as int;
        if *ip >= self.chunk.current() {
            return false;
        }
        let mut next = *ip;
        let op = match Op::decode(self.chunk.bytes(), &mut next) {
            Ok(op) => op,
            Err(_) => return false,
        };
        if !self.detail_exists(&op, constant_texts) {
            return false;
        }
        push_offset(out, *ip);
        push_str(out, " ");
        let span = self.chunk.span(*ip);
        let same = if *ip > 0 {
            let previous = self.chunk.span(*ip - 1);
            span.start() == previous.start() && span.end() == previous.end()
        } else {
            false
        };
        proof {
            if *ip > 0 {
                let previous = self.chunk.byte_spans()[*ip - 1];
                if span.spec_start() == previous.spec_start() && span.spec_end() == previous.spec_end() {
                    Span::lemma_span_ext(span, previous);
                }
            }
        }
        let ghost column_start = out@;
        if same {
            push_str(out, "   | ");
        } else {
            push_decimal(out, span.start());
            push_str(out, "..");
            push_decimal(out, span.end());
            push_str(out, " ");
        }
        assert(out@ =~= column_start + span_column(self.chunk, ip0));
        push_op_text(out, &op);
        let ghost detail_start = out@;
        self.push_op_detail(&op, constant_texts, out);
        assert(out@ =~= detail_start + op_detail(*self, texts, op).unwrap());
        push_str(out, "\n");
        assert(out@ =~= start + instruction_text(*self, texts, ip0).unwrap().0);
        *ip = next;
        true
    }

    /// Whether what `op` names exists: its constant, function or class.
    fn detail_exists(&self, op: &Op, constant_texts: &Vec<Vec<u8>>) -> (r: bool)
        ensures
            r == op_detail(*self, texts_view(constant_texts@), *op) is Some,
    {
        match *op {
            Op::Constant { constant_index }
            | Op::ConstantLong { constant_index }
            | Op::DefineGlobal { constant_index }
            | Op::DefineGlobalLong { constant_index }
            | Op::GetGlobal { constant_index }
            | Op::GetGlobalLong { constant_index }
            | Op::SetGlobal { constant_index }
            | Op::SetGlobalLong { constant_index }
            | Op::GetField { constant_index }
            | Op::GetFieldLong { constant_index }
            | Op::SetField { constant_index }
            | Op::SetFieldLong { constant_index }
            | Op::Invoke { constant_index, .. }
            | Op::InvokeLong { constant_index, .. } => constant_index < constant_texts.len(),
            Op::CloseFunction { function_index } | Op::CloseFunctionLong { function_index } => function_index
                < self.functions.len(),
            Op::Class { class_index } | Op::ClassLong { class_index } => class_index < self.classes.len(),
            _ => true,
        }
    }

    /// Appends what follows the instruction `op`: the constant, function or
    /// class it names, or its upvalue slot.
    fn push_op_detail(&self, op: &Op, constant_texts: &Vec<Vec<u8>>, out: &mut Vec<u8>)
        requires
            op_detail(*self, texts_view(constant_texts@), *op) is Some,
        ensures
            final(out)@ == old(out)@ + op_detail(*self, texts_view(constant_texts@), *op).unwrap(),
    {
        let ghost start = out@;
        match *op {
            Op::Constant { constant_index }
            | Op::ConstantLong { constant_index }
            | Op::DefineGlobal { constant_index }
            | Op::DefineGlobalLong { constant_index }
            | Op::GetGlobal { constant_index }
            | Op::GetGlobalLong { constant_index }
            | Op::SetGlobal { constant_index }
            | Op::SetGlobalLong { constant_index }
            | Op::GetField { constant_index }
            | Op::GetFieldLong { constant_index }
            | Op::SetField { constant_index }
            | Op::SetFieldLong { constant_index } => {
                push_str(out, " ");
                push_bytes(out, constant_texts[constant_index].as_slice());
            },
            Op::CloseFunction { function_index } | Op::CloseFunctionLong { function_index } => {
                let function = &self.functions[function_index];
                push_str(out, " ");
                push_signature(out, function.name.as_slice(), function.arity);
            },
            Op::Class { class_index } | Op::ClassLong { class_index } => {
                push_str(out, " ");
                push_bytes(out, self.classes[class_index].name.as_slice());
            },
            Op::GetUpvalue { upvalue_index }
            | Op::GetUpvalueLong { upvalue_index }
            | Op::SetUpvalue { upvalue_index }
            | Op::SetUpvalueLong { upvalue_index } => {
                push_str(out, " ");
                push_decimal(out, upvalue_index);
            },
            Op::Invoke { constant_index, arity } | Op::InvokeLong { constant_index, arity } => {
                push_str(out, " ");
                push_signature(out, constant_texts[constant_index].as_slice(), arity);
            },
            _ => {},
        }
        assert(out@ =~= start + op_detail(*self, texts_view(constant_texts@), *op).unwrap());
    }

    /// Appends the header of the last function whose code starts at `ip`.
    fn push_function_header(&self, ip: usize, out: &mut Vec<u8>)
        ensures
            final(out)@ == old(out)@ + function_header(self.functions@, self.functions@.len() as int, ip as int),
    {
        let mut k = self.functions.len();
        while k > 0
            invariant
                k <= self.functions@.len(),
                *out == *old(out),
                function_header(self.functions@, self.functions@.len() as int, ip as int) == function_header(
                    self.functions@,
                    k as int,
                    ip as int,
                ),
            decreases k,
        {
            if self.functions[k - 1].ip == ip {
                let ghost start = out@;
                push_signature(out, self.functions[k - 1].name.as_slice(), self.functions[k - 1].arity);
                push_str(out, ":\n");
                assert(out@ =~= start + function_header(self.functions@, k as int, ip as int));
                return;
            }
            k -= 1;
        }
    }

    /// The listing of the whole code: each instruction on a line of its own,
    /// after the header of a function that starts there.
    pub fn disassemble(&self, constant_texts: &Vec<Vec<u8>>) -> (r: Vec<u8>)
        requires
            self.chunk.wf(),
            disassembly(*self, texts_view(constant_texts@), 0) is Some,
        ensures
            Some(r@) == disassembly(*self, texts_view(constant_texts@), 0),
    {
        match self.try_disassemble(constant_texts) {
            Some(r) => r,
            None => {
                assert(false);
                Vec::new()
            },
        }
    }

    /// The listing of the whole code; `None` where an instruction does not
    /// decode or names a constant, function or class that does not exist.
    pub fn try_disassemble(&self, constant_texts: &Vec<Vec<u8>>) -> (r: Option<Vec<u8>>)
        requires
            self.chunk.wf(),
        ensures
            r is Some == disassembly(*self, texts_view(constant_texts@), 0) is Some,
            r is Some ==> Some(r.unwrap()@) == disassembly(*self, texts_view(constant_texts@), 0),
    {
        let ghost texts = texts_view(constant_texts@);
        let mut out: Vec<u8> = Vec::new();
        let mut ip: usize = 0;
        while ip < self.chunk.current()
            invariant
                self.chunk.wf(),
                disassembly(*self, texts, 0) is Some ==> disassembly(*self, texts, ip as int) is Some,
                disassembly(*self, texts, ip as int) is Some ==> disassembly(*self, texts, 0) == Some(
                    out@ + disassembly(*self, texts, ip as int).unwrap(),
                ),
                disassembly(*self, texts, ip as int) is None ==> disassembly(*self, texts, 0) is None,
                texts == texts_view(constant_texts@),
            decreases self.chunk.code().len() - ip,
        {
            let ghost ip0 = ip as int;
            let ghost out0 = out@;
            let before = ip;
            self.push_function_header(ip, &mut out);
            if !self.try_instruction(&mut ip, constant_texts, &mut out) {
                return None;
            }
            if ip <= before || ip > self.chunk.current() {
                return None;
            }
            proof {
                if disassembly(*self, texts, ip as int) is Some {
                    assert(out0 + disassembly(*self, texts, ip0).unwrap() =~= out@ + disassembly(
                        *self,
                        texts,
                        ip as int,
                    ).unwrap());
                }
            }
        }
        proof {
            assert(out@ + disassembly(*self, texts, ip as int).unwrap() =~= out@);
        }
        Some(out)
    }
}


/// The opcode of the instruction whose name `t` begins with, alone or
/// followed by a space; -1 where it begins with no such name. The names
/// are read byte by byte.
spec fn text_opcode(t: Seq<u8>) -> int {
    if t.len() > 0 && t[0] == 82u8 {
        if t.len() > 1 && t[1] == 101u8 {
            if t.len() > 2 && t[2] == 116u8 {
                if t.len() > 3 && t[3] == 117u8 {
                    if t.len() > 4 && t[4] == 114u8 {
                        if t.len() > 5 && t[5] == 110u8 {
                            if t.len() == 6 || (t.len() > 6 && t[6] == 32u8) {
                                0
                            } else {
                                -1
                            }
                        } else {
                            -1
                        }
                    } else {
                        -1
                    }
                } else {
                    -1
                }
            } else {
                -1
            }
        } else {
            -1
        }
    } else if t.len() > 0 && t[0] == 78u8 {
        if t.len() > 1 && t[1] == 105u8 {
            if t.len() > 2 && t[2] == 108u8 {
                if t.len() == 3 || (t.len() > 3 && t[3] == 32u8) {
                    1
                } else {
                    -1
                }
            } else {
                -1
            }
        } else if t.len() > 1 && t[1] == 111u8 {
            if t.len() > 2 && t[2] == 116u8 {
                if t.len() == 3 || (t.len() > 3 && t[3] == 32u8) {
                    6
                } else {
                    -1
                }
            } else {
                -1
            }
        } else if t.len() > 1 && t[1] == 101u8 {
            if t.len() > 2 && t[2] == 103u8 {
                if t.len() > 3 && t[3] == 97u8 {
                    if t.len() > 4 && t[4] == 116u8 {
                        if t.len() > 5 && t[5] == 101u8 {
                            if t.len() == 6 || (t.len() > 6 && t[6] == 32u8) {
                                7
                            } else {
                                -1
                            }
                        } else {
                            -1
                        }
                    } else {
                        -1
                    }
                } else {
                    -1
                }
            } else {
                -1
            }
        } else {
            -1
        }
    } else if t.len() > 0 && t[0] == 84u8 {
        if t.len() > 1 && t[1] == 114u8 {
            if t.len() > 2 && t[2] == 117u8 {
                if t.len() > 3 && t[3] == 101u8 {
                    if t.len() == 4 || (t.len() > 4 && t[4] == 32u8) {
                        2
                    } else {
                        -1
                    }
                } else {
                    -1
                }
            } else {
                -1
            }
        } else {
            -1
        }
    } else if t.len() > 0 && t[0] == 70u8 {
        if t.len() > 1 && t[1] == 97u8 {
            if t.len() > 2 && t[2] == 108u8 {
                if t.len() > 3 && t[3] == 115u8 {
                    if t.len() > 4 && t[4] == 101u8 {
                        if t.len() == 5 || (t.len() > 5 && t[5] == 32u8) {
                            3
                        } else {
                            -1
                        }
                    } else {
                        -1
                    }
                } else {
                    -1
                }
            } else {
                -1
            }
        } else {
            -1
        }
    } else if t.len() > 0 && t[0] == 67u8 {
        if t.len() > 1 && t[1] == 111u8 {
            if t.len() > 2 && t[2] == 110u8 {
                if t.len() > 3 && t[3] == 115u8 {
                    if t.len() > 4 && t[4] == 116u8 {
                        if t.len() > 5 && t[5] == 97u8 {
                            if t.len() > 6 && t[6] == 110u8 {
                                if t.len() > 7 && t[7] == 116u8 {
                                    if t.len() == 8 || (t.len() > 8 && t[8] == 32u8) {
                                        4
                                    } else {
                                        if t.len() > 8 && t[8] == 76u8 {
                                            if t.len() > 9 && t[9] == 111u8 {
                                                if t.len() > 10 && t[10] == 110u8 {
                                                    if t.len() > 11 && t[11] == 103u8 {
                                                        if t.len() == 12 || (t.len() > 12 && t[12] == 32u8) {
                                                            5
                                                        } else {
                                                            -1
                                                        }
                                                    } else {
                                                        -1
                                                    }
                                                } else {
                                                    -1
                                                }
                                            } else {
                                                -1
                                            }
                                        } else {
                                            -1
                                        }
                                    }
                                } else {
                                    -1
                                }
                            } else {
                                -1
                            }
                        } else {
                            -1
                        }
                    } else {
                        -1
                    }
                } else {
                    -1
                }
            } else {
                -1
            }
        } else if t.len() > 1 && t[1] == 97u8 {
            if t.len() > 2 && t[2] == 108u8 {
                if t.len() > 3 && t[3] == 108u8 {
                    if t.len() == 4 || (t.len() > 4 && t[4] == 32u8) {
                        31
                    } else {
                        -1
                    }
                } else {
                    -1
                }
            } else {
                -1
            }
        } else if t.len() > 1 && t[1] == 108u8 {
            if t.len() > 2 && t[2] == 111u8 {
                if t.len() > 3 && t[3] == 115u8 {
                    if t.len() > 4 && t[4] == 101u8 {
                        if t.len() > 5 && t[5] == 70u8 {
                            if t.len() > 6 && t[6] == 117u8 {
                                if t.len() > 7 && t[7] == 110u8 {
                                    if t.len() > 8 && t[8] == 99u8 {
                                        if t.len() > 9 && t[9] == 116u8 {
                                            if t.len() > 10 && t[10] == 105u8 {
                                                if t.len() > 11 && t[11] == 111u8 {
                                                    if t.len() > 12 && t[12] == 110u8 {
                                                        if t.len() == 13 || (t.len() > 13 && t[13] == 32u8) {
                                                            32
                                                        } else {
                                                            if t.len() > 13 && t[13] == 76u8 {
                                                                if t.len() > 14 && t[14] == 111u8 {
                                                                    if t.len() > 15 && t[15] == 110u8 {
                                                                        if t.len() > 16 && t[16] == 103u8 {
                                                                            if t.len() == 17 || (t.len() > 17 && t[17] == 32u8) {
                                                                                33
                                                                            } else {
                                                                                -1
                                                                            }
                                                                        } else {
                                                                            -1
                                                                        }
                                                                    } else {
                                                                        -1
                                                                    }
                                                                } else {
                                                                    -1
                                                                }
                                                            } else {
                                                                -1
                                                            }
                                                        }
                                                    } else {
                                                        -1
                                                    }
                                                } else {
                                                    -1
                                                }
                                            } else {
                                                -1
                                            }
                                        } else {
                                            -1
                                        }
                                    } else {
                                        -1
                                    }
                                } else {
                                    -1
                                }
                            } else {
                                -1
                            }
                        } else if t.len() > 5 && t[5] == 76u8 {
                            if t.len() > 6 && t[6] == 111u8 {
                                if t.len() > 7 && t[7] == 99u8 {
                                    if t.len() > 8 && t[8] == 97u8 {
                                        if t.len() > 9 && t[9] == 108u8 {
                                            if t.len() == 10 || (t.len() > 10 && t[10] == 32u8) {
                                                34
                                            } else {
                                                -1
                                            }
                                        } else {
                                            -1
                                        }
                                    } else {
                                        -1
                                    }
                                } else {
                                    -1
                                }
                            } else {
                                -1
                            }
                        } else {
                            -1
                        }
                    } else {
                        -1
                    }
                } else {
                    -1
                }
            } else if t.len() > 2 && t[2] == 97u8 {
                if t.len() > 3 && t[3] == 115u8 {
                    if t.len() > 4 && t[4] == 115u8 {
                        if t.len() == 5 || (t.len() > 5 && t[5] == 32u8) {
                            39
                        } else {
                            if t.len() > 5 && t[5] == 76u8 {
                                if t.len() > 6 && t[6] == 111u8 {
                                    if t.len() > 7 && t[7] == 110u8 {
                                        if t.len() > 8 && t[8] == 103u8 {
                                            if t.len() == 9 || (t.len() > 9 && t[9] == 32u8) {
                                                40
                                            } else {
                                                -1
                                            }
                                        } else {
                                            -1
                                        }
                                    } else {
                                        -1
                                    }
                                } else {
                                    -1
                                }
                            } else {
                                -1
                            }
                        }
                    } else {
                        -1
                    }
                } else {
                    -1
                }
            } else {
                -1
            }
        } else {
            -1
        }
    } else if t.len() > 0 && t[0] == 65u8 {
        if t.len() > 1 && t[1] == 100u8 {
            if t.len() > 2 && t[2] == 100u8 {
                if t.len() == 3 || (t.len() > 3 && t[3] == 32u8) {
                    8
                } else {
                    -1
                }
            } else {
                -1
            }
        } else {
            -1
        }
    } else if t.len() > 0 && t[0] == 83u8 {
        if t.len() > 1 && t[1] == 117u8 {
            if t.len() > 2 && t[2] == 98u8 {
                if t.len() > 3 && t[3] == 116u8 {
                    if t.len() > 4 && t[4] == 114u8 {
                        if t.len() > 5 && t[5] == 97u8 {
                            if t.len() > 6 && t[6] == 99u8 {
                                if t.len() > 7 && t[7] == 116u8 {
                                    if t.len() == 8 || (t.len() > 8 && t[8] == 32u8) {
                                        9
                                    } else {
                                        -1
                                    }
                                } else {
                                    -1
                                }
                            } else {
                                -1
                            }
                        } else {
                            -1
                        }
                    } else {
                        -1
                    }
                } else {
                    -1
                }
            } else {
                -1
            }
        } else if t.len() > 1 && t[1] == 101u8 {
            if t.len() > 2 && t[2] == 116u8 {
                if t.len() > 3 && t[3] == 71u8 {
                    if t.len() > 4 && t[4] == 108u8 {
                        if t.len() > 5 && t[5] == 111u8 {
                            if t.len() > 6 && t[6] == 98u8 {
                                if t.len() > 7 && t[7] == 97u8 {
                                    if t.len() > 8 && t[8] == 108u8 {
                                        if t.len() == 9 || (t.len() > 9 && t[9] == 32u8) {
                                            21
                                        } else {
                                            if t.len() > 9 && t[9] == 76u8 {
                                                if t.len() > 10 && t[10] == 111u8 {
                                                    if t.len() > 11 && t[11] == 110u8 {
                                                        if t.len() > 12 && t[12] == 103u8 {
                                                            if t.len() == 13 || (t.len() > 13 && t[13] == 32u8) {
                                                                22
                                                            } else {
                                                                -1
                                                            }
                                                        } else {
                                                            -1
                                                        }
                                                    } else {
                                                        -1
                                                    }
                                                } else {
                                                    -1
                                                }
                                            } else {
                                                -1
                                            }
                                        }
                                    } else {
                                        -1
                                    }
                                } else {
                                    -1
                                }
                            } else {
                                -1
                            }
                        } else {
                            -1
                        }
                    } else {
                        -1
                    }
                } else if t.len() > 3 && t[3] == 76u8 {
                    if t.len() > 4 && t[4] == 111u8 {
                        if t.len() > 5 && t[5] == 99u8 {
                            if t.len() > 6 && t[6] == 97u8 {
                                if t.len() > 7 && t[7] == 108u8 {
                                    if t.len() == 8 || (t.len() > 8 && t[8] == 32u8) {
                                        25
                                    } else {
                                        if t.len() > 8 && t[8] == 76u8 {
                                            if t.len() > 9 && t[9] == 111u8 {
                                                if t.len() > 10 && t[10] == 110u8 {
                                                    if t.len() > 11 && t[11] == 103u8 {
                                                        if t.len() == 12 || (t.len() > 12 && t[12] == 32u8) {
                                                            26
                                                        } else {
                                                            -1
                                                        }
                                                    } else {
                                                        -1
                                                    }
                                                } else {
                                                    -1
                                                }
                                            } else {
                                                -1
                                            }
                                        } else {
                                            -1
                                        }
                                    }
                                } else {
                                    -1
                                }
                            } else {
                                -1
                            }
                        } else {
                            -1
                        }
                    } else {
                        -1
                    }
                } else if t.len() > 3 && t[3] == 85u8 {
                    if t.len() > 4 && t[4] == 112u8 {
                        if t.len() > 5 && t[5] == 118u8 {
                            if t.len() > 6 && t[6] == 97u8 {
                                if t.len() > 7 && t[7] == 108u8 {
                                    if t.len() > 8 && t[8] == 117u8 {
                                        if t.len() > 9 && t[9] == 101u8 {
                                            if t.len() == 10 || (t.len() > 10 && t[10] == 32u8) {
                                                37
                                            } else {
                                                if t.len() > 10 && t[10] == 76u8 {
                                                    if t.len() > 11 && t[11] == 111u8 {
                                                        if t.len() > 12 && t[12] == 110u8 {
                                                            if t.len() > 13 && t[13] == 103u8 {
                                                                if t.len() == 14 || (t.len() > 14 && t[14] == 32u8) {
                                                                    38
                                                                } else {
                                                                    -1
                                                                }
                                                            } else {
                                                                -1
                                                            }
                                                        } else {
                                                            -1
                                                        }
                                                    } else {
                                                        -1
                                                    }
                                                } else {
                                                    -1
                                                }
                                            }
                                        } else {
                                            -1
                                        }
                                    } else {
                                        -1
                                    }
                                } else {
                                    -1
                                }
                            } else {
                                -1
                            }
                        } else {
                            -1
                        }
                    } else {
                        -1
                    }
                } else if t.len() > 3 && t[3] == 70u8 {
                    if t.len() > 4 && t[4] == 105u8 {
                        if t.len() > 5 && t[5] == 101u8 {
                            if t.len() > 6 && t[6] == 108u8 {
                                if t.len() > 7 && t[7] == 100u8 {
                                    if t.len() == 8 || (t.len() > 8 && t[8] == 32u8) {
                                        43
                                    } else {
                                        if t.len() > 8 && t[8] == 76u8 {
                                            if t.len() > 9 && t[9] == 111u8 {
                                                if t.len() > 10 && t[10] == 110u8 {
                                                    if t.len() > 11 && t[11] == 103u8 {
                                                        if t.len() == 12 || (t.len() > 12 && t[12] == 32u8) {
                                                            44
                                                        } else {
                                                            -1
                                                        }
                                                    } else {
                                                        -1
                                                    }
                                                } else {
                                                    -1
                                                }
                                            } else {
                                                -1
                                            }
                                        } else {
                                            -1
                                        }
                                    }
                                } else {
                                    -1
                                }
                            } else {
                                -1
                            }
                        } else {
                            -1
                        }
                    } else {
                        -1
                    }
                } else {
                    -1
                }
            } else {
                -1
            }
        } else {
            -1
        }
    } else if t.len() > 0 && t[0] == 77u8 {
        if t.len() > 1 && t[1] == 117u8 {
            if t.len() > 2 && t[2] == 108u8 {
                if t.len() > 3 && t[3] == 116u8 {
                    if t.len() > 4 && t[4] == 105u8 {
                        if t.len() > 5 && t[5] == 112u8 {
                            if t.len() > 6 && t[6] == 108u8 {
                                if t.len() > 7 && t[7] == 121u8 {
                                    if t.len() == 8 || (t.len() > 8 && t[8] == 32u8) {
                                        10
                                    } else {
                                        -1
                                    }
                                } else {
                                    -1
                                }
                            } else {
                                -1
                            }
                        } else {
                            -1
                        }
                    } else {
                        -1
                    }
                } else {
                    -1
                }
            } else {
                -1
            }
        } else {
            -1
        }
    } else if t.len() > 0 && t[0] == 68u8 {
        if t.len() > 1 && t[1] == 105u8 {
            if t.len() > 2 && t[2] == 118u8 {
                if t.len() > 3 && t[3] == 105u8 {
                    if t.len() > 4 && t[4] == 100u8 {
                        if t.len() > 5 && t[5] == 101u8 {
                            if t.len() == 6 || (t.len() > 6 && t[6] == 32u8) {
                                11
                            } else {
                                -1
                            }
                        } else {
                            -1
                        }
                    } else {
                        -1
                    }
                } else {
                    -1
                }
            } else {
                -1
            }
        } else if t.len() > 1 && t[1] == 101u8 {
            if t.len() > 2 && t[2] == 102u8 {
                if t.len() > 3 && t[3] == 105u8 {
                    if t.len() > 4 && t[4] == 110u8 {
                        if t.len() > 5 && t[5] == 101u8 {
                            if t.len() > 6 && t[6] == 71u8 {
                                if t.len() > 7 && t[7] == 108u8 {
                                    if t.len() > 8 && t[8] == 111u8 {
                                        if t.len() > 9 && t[9] == 98u8 {
                                            if t.len() > 10 && t[10] == 97u8 {
                                                if t.len() > 11 && t[11] == 108u8 {
                                                    if t.len() == 12 || (t.len() > 12 && t[12] == 32u8) {
                                                        17
                                                    } else {
                                                        if t.len() > 12 && t[12] == 76u8 {
                                                            if t.len() > 13 && t[13] == 111u8 {
                                                                if t.len() > 14 && t[14] == 110u8 {
                                                                    if t.len() > 15 && t[15] == 103u8 {
                                                                        if t.len() == 16 || (t.len() > 16 && t[16] == 32u8) {
                                                                            18
                                                                        } else {
                                                                            -1
                                                                        }
                                                                    } else {
                                                                        -1
                                                                    }
                                                                } else {
                                                                    -1
                                                                }
                                                            } else {
                                                                -1
                                                            }
                                                        } else {
                                                            -1
                                                        }
                                                    }
                                                } else {
                                                    -1
                                                }
                                            } else {
                                                -1
                                            }
                                        } else {
                                            -1
                                        }
                                    } else {
                                        -1
                                    }
                                } else {
                                    -1
                                }
                            } else {
                                -1
                            }
                        } else {
                            -1
                        }
                    } else {
                        -1
                    }
                } else {
                    -1
                }
            } else {
                -1
            }
        } else {
            -1
        }
    } else if t.len() > 0 && t[0] == 69u8 {
        if t.len() > 1 && t[1] == 113u8 {
            if t.len() > 2 && t[2] == 117u8 {
                if t.len() > 3 && t[3] == 97u8 {
                    if t.len() > 4 && t[4] == 108u8 {
                        if t.len() == 5 || (t.len() > 5 && t[5] == 32u8) {
                            12
                        } else {
                            -1
                        }
                    } else {
                        -1
                    }
                } else {
                    -1
                }
            } else {
                -1
            }
        } else {
            -1
        }
    } else if t.len() > 0 && t[0] == 71u8 {
        if t.len() > 1 && t[1] == 114u8 {
            if t.len() > 2 && t[2] == 101u8 {
                if t.len() > 3 && t[3] == 97u8 {
                    if t.len() > 4 && t[4] == 116u8 {
                        if t.len() > 5 && t[5] == 101u8 {
                            if t.len() > 6 && t[6] == 114u8 {
                                if t.len() == 7 || (t.len() > 7 && t[7] == 32u8) {
                                    13
                                } else {
                                    -1
                                }
                            } else {
                                -1
                            }
                        } else {
                            -1
                        }
                    } else {
                        -1
                    }
                } else {
                    -1
                }
            } else {
                -1
            }
        } else if t.len() > 1 && t[1] == 101u8 {
            if t.len() > 2 && t[2] == 116u8 {
                if t.len() > 3 && t[3] == 71u8 {
                    if t.len() > 4 && t[4] == 108u8 {
                        if t.len() > 5 && t[5] == 111u8 {
                            if t.len() > 6 && t[6] == 98u8 {
                                if t.len() > 7 && t[7] == 97u8 {
                                    if t.len() > 8 && t[8] == 108u8 {
                                        if t.len() == 9 || (t.len() > 9 && t[9] == 32u8) {
                                            19
                                        } else {
                                            if t.len() > 9 && t[9] == 76u8 {
                                                if t.len() > 10 && t[10] == 111u8 {
                                                    if t.len() > 11 && t[11] == 110u8 {
                                                        if t.len() > 12 && t[12] == 103u8 {
                                                            if t.len() == 13 || (t.len() > 13 && t[13] == 32u8) {
                                                                20
                                                            } else {
                                                                -1
                                                            }
                                                        } else {
                                                            -1
                                                        }
                                                    } else {
                                                        -1
                                                    }
                                                } else {
                                                    -1
                                                }
                                            } else {
                                                -1
                                            }
                                        }
                                    } else {
                                        -1
                                    }
                                } else {
                                    -1
                                }
                            } else {
                                -1
                            }
                        } else {
                            -1
                        }
                    } else {
                        -1
                    }
                } else if t.len() > 3 && t[3] == 76u8 {
                    if t.len() > 4 && t[4] == 111u8 {
                        if t.len() > 5 && t[5] == 99u8 {
                            if t.len() > 6 && t[6] == 97u8 {
                                if t.len() > 7 && t[7] == 108u8 {
                                    if t.len() == 8 || (t.len() > 8 && t[8] == 32u8) {
                                        23
                                    } else {
                                        if t.len() > 8 && t[8] == 76u8 {
                                            if t.len() > 9 && t[9] == 111u8 {
                                                if t.len() > 10 && t[10] == 110u8 {
                                                    if t.len() > 11 && t[11] == 103u8 {
                                                        if t.len() == 12 || (t.len() > 12 && t[12] == 32u8) {
                                                            24
                                                        } else {
                                                            -1
                                                        }
                                                    } else {
                                                        -1
                                                    }
                                                } else {
                                                    -1
                                                }
                                            } else {
                                                -1
                                            }
                                        } else {
                                            -1
                                        }
                                    }
                                } else {
                                    -1
                                }
                            } else {
                                -1
                            }
                        } else {
                            -1
                        }
                    } else {
                        -1
                    }
                } else if t.len() > 3 && t[3] == 85u8 {
                    if t.len() > 4 && t[4] == 112u8 {
                        if t.len() > 5 && t[5] == 118u8 {
                            if t.len() > 6 && t[6] == 97u8 {
                                if t.len() > 7 && t[7] == 108u8 {
                                    if t.len() > 8 && t[8] == 117u8 {
                                        if t.len() > 9 && t[9] == 101u8 {
                                            if t.len() == 10 || (t.len() > 10 && t[10] == 32u8) {
                                                35
                                            } else {
                                                if t.len() > 10 && t[10] == 76u8 {
                                                    if t.len() > 11 && t[11] == 111u8 {
                                                        if t.len() > 12 && t[12] == 110u8 {
                                                            if t.len() > 13 && t[13] == 103u8 {
                                                                if t.len() == 14 || (t.len() > 14 && t[14] == 32u8) {
                                                                    36
                                                                } else {
                                                                    -1
                                                                }
                                                            } else {
                                                                -1
                                                            }
                                                        } else {
                                                            -1
                                                        }
                                                    } else {
                                                        -1
                                                    }
                                                } else {
                                                    -1
                                                }
                                            }
                                        } else {
                                            -1
                                        }
                                    } else {
                                        -1
                                    }
                                } else {
                                    -1
                                }
                            } else {
                                -1
                            }
                        } else {
                            -1
                        }
                    } else {
                        -1
                    }
                } else if t.len() > 3 && t[3] == 70u8 {
                    if t.len() > 4 && t[4] == 105u8 {
                        if t.len() > 5 && t[5] == 101u8 {
                            if t.len() > 6 && t[6] == 108u8 {
                                if t.len() > 7 && t[7] == 100u8 {
                                    if t.len() == 8 || (t.len() > 8 && t[8] == 32u8) {
                                        41
                                    } else {
                                        if t.len() > 8 && t[8] == 76u8 {
                                            if t.len() > 9 && t[9] == 111u8 {
                                                if t.len() > 10 && t[10] == 110u8 {
                                                    if t.len() > 11 && t[11] == 103u8 {
                                                        if t.len() == 12 || (t.len() > 12 && t[12] == 32u8) {
                                                            42
                                                        } else {
                                                            -1
                                                        }
                                                    } else {
                                                        -1
                                                    }
                                                } else {
                                                    -1
                                                }
                                            } else {
                                                -1
                                            }
                                        } else {
                                            -1
                                        }
                                    }
                                } else {
                                    -1
                                }
                            } else {
                                -1
                            }
                        } else {
                            -1
                        }
                    } else {
                        -1
                    }
                } else {
                    -1
                }
            } else {
                -1
            }
        } else {
            -1
        }
    } else if t.len() > 0 && t[0] == 76u8 {
        if t.len() > 1 && t[1] == 101u8 {
            if t.len() > 2 && t[2] == 115u8 {
                if t.len() > 3 && t[3] == 115u8 {
                    if t.len() == 4 || (t.len() > 4 && t[4] == 32u8) {
                        14
                    } else {
                        -1
                    }
                } else {
                    -1
                }
            } else {
                -1
            }
        } else if t.len() > 1 && t[1] == 111u8 {
            if t.len() > 2 && t[2] == 111u8 {
                if t.len() > 3 && t[3] == 112u8 {
                    if t.len() == 4 || (t.len() > 4 && t[4] == 32u8) {
                        29
                    } else {
                        -1
                    }
                } else {
                    -1
                }
            } else {
                -1
            }
        } else {
            -1
        }
    } else if t.len() > 0 && t[0] == 80u8 {
        if t.len() > 1 && t[1] == 114u8 {
            if t.len() > 2 && t[2] == 105u8 {
                if t.len() > 3 && t[3] == 110u8 {
                    if t.len() > 4 && t[4] == 116u8 {
                        if t.len() == 5 || (t.len() > 5 && t[5] == 32u8) {
                            15
                        } else {
                            -1
                        }
                    } else {
                        -1
                    }
                } else {
                    -1
                }
            } else {
                -1
            }
        } else if t.len() > 1 && t[1] == 111u8 {
            if t.len() > 2 && t[2] == 112u8 {
                if t.len() == 3 || (t.len() > 3 && t[3] == 32u8) {
                    16
                } else {
                    -1
                }
            } else {
                -1
            }
        } else if t.len() > 1 && t[1] == 117u8 {
            if t.len() > 2 && t[2] == 115u8 {
                if t.len() > 3 && t[3] == 104u8 {
                    if t.len() > 4 && t[4] == 70u8 {
                        if t.len() > 5 && t[5] == 114u8 {
                            if t.len() > 6 && t[6] == 97u8 {
                                if t.len() > 7 && t[7] == 109u8 {
                                    if t.len() > 8 && t[8] == 101u8 {
                                        if t.len() == 9 || (t.len() > 9 && t[9] == 32u8) {
                                            30
                                        } else {
                                            -1
                                        }
                                    } else {
                                        -1
                                    }
                                } else {
                                    -1
                                }
                            } else {
                                -1
                            }
                        } else {
                            -1
                        }
                    } else {
                        -1
                    }
                } else {
                    -1
                }
            } else {
                -1
            }
        } else {
            -1
        }
    } else if t.len() > 0 && t[0] == 74u8 {
        if t.len() > 1 && t[1] == 117u8 {
            if t.len() > 2 && t[2] == 109u8 {
                if t.len() > 3 && t[3] == 112u8 {
                    if t.len() == 4 || (t.len() > 4 && t[4] == 32u8) {
                        28
                    } else {
                        if t.len() > 4 && t[4] == 73u8 {
                            if t.len() > 5 && t[5] == 102u8 {
                                if t.len() > 6 && t[6] == 70u8 {
                                    if t.len() > 7 && t[7] == 97u8 {
                                        if t.len() > 8 && t[8] == 108u8 {
                                            if t.len() > 9 && t[9] == 115u8 {
                                                if t.len() > 10 && t[10] == 101u8 {
                                                    if t.len() == 11 || (t.len() > 11 && t[11] == 32u8) {
                                                        27
                                                    } else {
                                                        -1
                                                    }
                                                } else {
                                                    -1
                                                }
                                            } else {
                                                -1
                                            }
                                        } else {
                                            -1
                                        }
                                    } else {
                                        -1
                                    }
                                } else {
                                    -1
                                }
                            } else {
                                -1
                            }
                        } else {
                            -1
                        }
                    }
                } else {
                    -1
                }
            } else {
                -1
            }
        } else {
            -1
        }
    } else if t.len() > 0 && t[0] == 73u8 {
        if t.len() > 1 && t[1] == 110u8 {
            if t.len() > 2 && t[2] == 118u8 {
                if t.len() > 3 && t[3] == 111u8 {
                    if t.len() > 4 && t[4] == 107u8 {
                        if t.len() > 5 && t[5] == 101u8 {
                            if t.len() == 6 || (t.len() > 6 && t[6] == 32u8) {
                                45
                            } else {
                                if t.len() > 6 && t[6] == 76u8 {
                                    if t.len() > 7 && t[7] == 111u8 {
                                        if t.len() > 8 && t[8] == 110u8 {
                                            if t.len() > 9 && t[9] == 103u8 {
                                                if t.len() == 10 || (t.len() > 10 && t[10] == 32u8) {
                                                    46
                                                } else {
                                                    -1
                                                }
                                            } else {
                                                -1
                                            }
                                        } else {
                                            -1
                                        }
                                    } else {
                                        -1
                                    }
                                } else {
                                    -1
                                }
                            }
                        } else {
                            -1
                        }
                    } else {
                        -1
                    }
                } else {
                    -1
                }
            } else {
                -1
            }
        } else {
            -1
        }
    } else {
        -1
    }
}

/// The text of an instruction with an opcode from 0 to 5 begins with
/// its own name.
#[verifier::spinoff_prover]
#[verifier::rlimit(100)]
proof fn lemma_text_opcode_0(op: Op)
    requires
        0 <= opcode(op) < 6,
    ensures
        text_opcode(op_text(op)) == opcode(op) as int,
{
    let t = op_text(op);
    match op {
        Op::Return => {
            reveal_strlit("Return");
            vstd::string::is_ascii_spec_bytes("Return");
            assert(vstd::string::is_ascii("Return"));
        },
        Op::Nil => {
            reveal_strlit("Nil");
            vstd::string::is_ascii_spec_bytes("Nil");
            assert(vstd::string::is_ascii("Nil"));
        },
        Op::True => {
            reveal_strlit("True");
            vstd::string::is_ascii_spec_bytes("True");
            assert(vstd::string::is_ascii("True"));
        },
        Op::False => {
            reveal_strlit("False");
            vstd::string::is_ascii_spec_bytes("False");
            assert(vstd::string::is_ascii("False"));
        },
        Op::Constant { .. } => {
            reveal_strlit("Constant");
            vstd::string::is_ascii_spec_bytes("Constant");
            assert(vstd::string::is_ascii("Constant"));
            reveal_strlit(" {");
            vstd::string::is_ascii_spec_bytes(" {");
            assert(vstd::string::is_ascii(" {"));
            let n = "Constant".spec_bytes();
            assert(t.len() > n.len());
            assert(forall|i: int| 0 <= i < n.len() ==> t[i] == #[trigger] n[i]);
            assert(t[n.len() as int] == 32u8);
        },
        Op::ConstantLong { .. } => {
            reveal_strlit("ConstantLong");
            vstd::string::is_ascii_spec_bytes("ConstantLong");
            assert(vstd::string::is_ascii("ConstantLong"));
            reveal_strlit(" {");
            vstd::string::is_ascii_spec_bytes(" {");
            assert(vstd::string::is_ascii(" {"));
            let n = "ConstantLong".spec_bytes();
            assert(t.len() > n.len());
            assert(forall|i: int| 0 <= i < n.len() ==> t[i] == #[trigger] n[i]);
            assert(t[n.len() as int] == 32u8);
        },
        _ => {},
    }
}

/// The text of an instruction with an opcode from 6 to 11 begins with
/// its own name.
#[verifier::spinoff_prover]
#[verifier::rlimit(100)]
proof fn lemma_text_opcode_1(op: Op)
    requires
        6 <= opcode(op) < 12,
    ensures
        text_opcode(op_text(op)) == opcode(op) as int,
{
    let t = op_text(op);
    match op {
        Op::Not => {
            reveal_strlit("Not");
            vstd::string::is_ascii_spec_bytes("Not");
            assert(vstd::string::is_ascii("Not"));
        },
        Op::Negate => {
            reveal_strlit("Negate");
            vstd::string::is_ascii_spec_bytes("Negate");
            assert(vstd::string::is_ascii("Negate"));
        },
        Op::Add => {
            reveal_strlit("Add");
            vstd::string::is_ascii_spec_bytes("Add");
            assert(vstd::string::is_ascii("Add"));
        },
        Op::Subtract => {
            reveal_strlit("Subtract");
            vstd::string::is_ascii_spec_bytes("Subtract");
            assert(vstd::string::is_ascii("Subtract"));
        },
        Op::Multiply => {
            reveal_strlit("Multiply");
            vstd::string::is_ascii_spec_bytes("Multiply");
            assert(vstd::string::is_ascii("Multiply"));
        },
        Op::Divide => {
            reveal_strlit("Divide");
            vstd::string::is_ascii_spec_bytes("Divide");
            assert(vstd::string::is_ascii("Divide"));
        },
        _ => {},
    }
}

/// The text of an instruction with an opcode from 12 to 17 begins with
/// its own name.
#[verifier::spinoff_prover]
#[verifier::rlimit(100)]
proof fn lemma_text_opcode_2(op: Op)
    requires
        12 <= opcode(op) < 18,
    ensures
        text_opcode(op_text(op)) == opcode(op) as int,
{
    let t = op_text(op);
    match op {
        Op::Equal => {
            reveal_strlit("Equal");
            vstd::string::is_ascii_spec_bytes("Equal");
            assert(vstd::string::is_ascii("Equal"));
        },
        Op::Greater => {
            reveal_strlit("Greater");
            vstd::string::is_ascii_spec_bytes("Greater");
            assert(vstd::string::is_ascii("Greater"));
        },
        Op::Less => {
            reveal_strlit("Less");
            vstd::string::is_ascii_spec_bytes("Less");
            assert(vstd::string::is_ascii("Less"));
        },
        Op::Print => {
            reveal_strlit("Print");
            vstd::string::is_ascii_spec_bytes("Print");
            assert(vstd::string::is_ascii("Print"));
        },
        Op::Pop => {
            reveal_strlit("Pop");
            vstd::string::is_ascii_spec_bytes("Pop");
            assert(vstd::string::is_ascii("Pop"));
        },
        Op::DefineGlobal { .. } => {
            reveal_strlit("DefineGlobal");
            vstd::string::is_ascii_spec_bytes("DefineGlobal");
            assert(vstd::string::is_ascii("DefineGlobal"));
            reveal_strlit(" {");
            vstd::string::is_ascii_spec_bytes(" {");
            assert(vstd::string::is_ascii(" {"));
            let n = "DefineGlobal".spec_bytes();
            assert(t.len() > n.len());
            assert(forall|i: int| 0 <= i < n.len() ==> t[i] == #[trigger] n[i]);
            assert(t[n.len() as int] == 32u8);
        },
        _ => {},
    }
}

/// The text of an instruction with an opcode from 18 to 23 begins with
/// its own name.
#[verifier::spinoff_prover]
#[verifier::rlimit(100)]
proof fn lemma_text_opcode_3(op: Op)
    requires
        18 <= opcode(op) < 24,
    ensures
        text_opcode(op_text(op)) == opcode(op) as int,
{
    let t = op_text(op);
    match op {
        Op::DefineGlobalLong { .. } => {
            reveal_strlit("DefineGlobalLong");
            vstd::string::is_ascii_spec_bytes("DefineGlobalLong");
            assert(vstd::string::is_ascii("DefineGlobalLong"));
            reveal_strlit(" {");
            vstd::string::is_ascii_spec_bytes(" {");
            assert(vstd::string::is_ascii(" {"));
            let n = "DefineGlobalLong".spec_bytes();
            assert(t.len() > n.len());
            assert(forall|i: int| 0 <= i < n.len() ==> t[i] == #[trigger] n[i]);
            assert(t[n.len() as int] == 32u8);
        },
        Op::GetGlobal { .. } => {
            reveal_strlit("GetGlobal");
            vstd::string::is_ascii_spec_bytes("GetGlobal");
            assert(vstd::string::is_ascii("GetGlobal"));
            reveal_strlit(" {");
            vstd::string::is_ascii_spec_bytes(" {");
            assert(vstd::string::is_ascii(" {"));
            let n = "GetGlobal".spec_bytes();
            assert(t.len() > n.len());
            assert(forall|i: int| 0 <= i < n.len() ==> t[i] == #[trigger] n[i]);
            assert(t[n.len() as int] == 32u8);
        },
        Op::GetGlobalLong { .. } => {
            reveal_strlit("GetGlobalLong");
            vstd::string::is_ascii_spec_bytes("GetGlobalLong");
            assert(vstd::string::is_ascii("GetGlobalLong"));
            reveal_strlit(" {");
            vstd::string::is_ascii_spec_bytes(" {");
            assert(vstd::string::is_ascii(" {"));
            let n = "GetGlobalLong".spec_bytes();
            assert(t.len() > n.len());
            assert(forall|i: int| 0 <= i < n.len() ==> t[i] == #[trigger] n[i]);
            assert(t[n.len() as int] == 32u8);
        },
        Op::SetGlobal { .. } => {
            reveal_strlit("SetGlobal");
            vstd::string::is_ascii_spec_bytes("SetGlobal");
            assert(vstd::string::is_ascii("SetGlobal"));
            reveal_strlit(" {");
            vstd::string::is_ascii_spec_bytes(" {");
            assert(vstd::string::is_ascii(" {"));
            let n = "SetGlobal".spec_bytes();
            assert(t.len() > n.len());
            assert(forall|i: int| 0 <= i < n.len() ==> t[i] == #[trigger] n[i]);
            assert(t[n.len() as int] == 32u8);
        },
        Op::SetGlobalLong { .. } => {
            reveal_strlit("SetGlobalLong");
            vstd::string::is_ascii_spec_bytes("SetGlobalLong");
            assert(vstd::string::is_ascii("SetGlobalLong"));
            reveal_strlit(" {");
            vstd::string::is_ascii_spec_bytes(" {");
            assert(vstd::string::is_ascii(" {"));
            let n = "SetGlobalLong".spec_bytes();
            assert(t.len() > n.len());
            assert(forall|i: int| 0 <= i < n.len() ==> t[i] == #[trigger] n[i]);
            assert(t[n.len() as int] == 32u8);
        },
        Op::GetLocal { .. } => {
            reveal_strlit("GetLocal");
            vstd::string::is_ascii_spec_bytes("GetLocal");
            assert(vstd::string::is_ascii("GetLocal"));
            reveal_strlit(" {");
            vstd::string::is_ascii_spec_bytes(" {");
            assert(vstd::string::is_ascii(" {"));
            let n = "GetLocal".spec_bytes();
            assert(t.len() > n.len());
            assert(forall|i: int| 0 <= i < n.len() ==> t[i] == #[trigger] n[i]);
            assert(t[n.len() as int] == 32u8);
        },
        _ => {},
    }
}

/// The text of an instruction with an opcode from 24 to 29 begins with
/// its own name.
#[verifier::spinoff_prover]
#[verifier::rlimit(100)]
proof fn lemma_text_opcode_4(op: Op)
    requires
        24 <= opcode(op) < 30,
    ensures
        text_opcode(op_text(op)) == opcode(op) as int,
{
    let t = op_text(op);
    match op {
        Op::GetLocalLong { .. } => {
            reveal_strlit("GetLocalLong");
            vstd::string::is_ascii_spec_bytes("GetLocalLong");
            assert(vstd::string::is_ascii("GetLocalLong"));
            reveal_strlit(" {");
            vstd::string::is_ascii_spec_bytes(" {");
            assert(vstd::string::is_ascii(" {"));
            let n = "GetLocalLong".spec_bytes();
            assert(t.len() > n.len());
            assert(forall|i: int| 0 <= i < n.len() ==> t[i] == #[trigger] n[i]);
            assert(t[n.len() as int] == 32u8);
        },
        Op::SetLocal { .. } => {
            reveal_strlit("SetLocal");
            vstd::string::is_ascii_spec_bytes("SetLocal");
            assert(vstd::string::is_ascii("SetLocal"));
            reveal_strlit(" {");
            vstd::string::is_ascii_spec_bytes(" {");
            assert(vstd::string::is_ascii(" {"));
            let n = "SetLocal".spec_bytes();
            assert(t.len() > n.len());
            assert(forall|i: int| 0 <= i < n.len() ==> t[i] == #[trigger] n[i]);
            assert(t[n.len() as int] == 32u8);
        },
        Op::SetLocalLong { .. } => {
            reveal_strlit("SetLocalLong");
            vstd::string::is_ascii_spec_bytes("SetLocalLong");
            assert(vstd::string::is_ascii("SetLocalLong"));
            reveal_strlit(" {");
            vstd::string::is_ascii_spec_bytes(" {");
            assert(vstd::string::is_ascii(" {"));
            let n = "SetLocalLong".spec_bytes();
            assert(t.len() > n.len());
            assert(forall|i: int| 0 <= i < n.len() ==> t[i] == #[trigger] n[i]);
            assert(t[n.len() as int] == 32u8);
        },
        Op::JumpIfFalse { .. } => {
            reveal_strlit("JumpIfFalse");
            vstd::string::is_ascii_spec_bytes("JumpIfFalse");
            assert(vstd::string::is_ascii("JumpIfFalse"));
            reveal_strlit(" {");
            vstd::string::is_ascii_spec_bytes(" {");
            assert(vstd::string::is_ascii(" {"));
            let n = "JumpIfFalse".spec_bytes();
            assert(t.len() > n.len());
            assert(forall|i: int| 0 <= i < n.len() ==> t[i] == #[trigger] n[i]);
            assert(t[n.len() as int] == 32u8);
        },
        Op::Jump { .. } => {
            reveal_strlit("Jump");
            vstd::string::is_ascii_spec_bytes("Jump");
            assert(vstd::string::is_ascii("Jump"));
            reveal_strlit(" {");
            vstd::string::is_ascii_spec_bytes(" {");
            assert(vstd::string::is_ascii(" {"));
            let n = "Jump".spec_bytes();
            assert(t.len() > n.len());
            assert(forall|i: int| 0 <= i < n.len() ==> t[i] == #[trigger] n[i]);
            assert(t[n.len() as int] == 32u8);
        },
        Op::Loop { .. } => {
            reveal_strlit("Loop");
            vstd::string::is_ascii_spec_bytes("Loop");
            assert(vstd::string::is_ascii("Loop"));
            reveal_strlit(" {");
            vstd::string::is_ascii_spec_bytes(" {");
            assert(vstd::string::is_ascii(" {"));
            let n = "Loop".spec_bytes();
            assert(t.len() > n.len());
            assert(forall|i: int| 0 <= i < n.len() ==> t[i] == #[trigger] n[i]);
            assert(t[n.len() as int] == 32u8);
        },
        _ => {},
    }
}

/// The text of an instruction with an opcode from 30 to 35 begins with
/// its own name.
#[verifier::spinoff_prover]
#[verifier::rlimit(100)]
proof fn lemma_text_opcode_5(op: Op)
    requires
        30 <= opcode(op) < 36,
    ensures
        text_opcode(op_text(op)) == opcode(op) as int,
{
    let t = op_text(op);
    match op {
        Op::PushFrame => {
            reveal_strlit("PushFrame");
            vstd::string::is_ascii_spec_bytes("PushFrame");
            assert(vstd::string::is_ascii("PushFrame"));
        },
        Op::Call { .. } => {
            reveal_strlit("Call");
            vstd::string::is_ascii_spec_bytes("Call");
            assert(vstd::string::is_ascii("Call"));
            reveal_strlit(" {");
            vstd::string::is_ascii_spec_bytes(" {");
            assert(vstd::string::is_ascii(" {"));
            let n = "Call".spec_bytes();
            assert(t.len() > n.len());
            assert(forall|i: int| 0 <= i < n.len() ==> t[i] == #[trigger] n[i]);
            assert(t[n.len() as int] == 32u8);
        },
        Op::CloseFunction { .. } => {
            reveal_strlit("CloseFunction");
            vstd::string::is_ascii_spec_bytes("CloseFunction");
            assert(vstd::string::is_ascii("CloseFunction"));
            reveal_strlit(" {");
            vstd::string::is_ascii_spec_bytes(" {");
            assert(vstd::string::is_ascii(" {"));
            let n = "CloseFunction".spec_bytes();
            assert(t.len() > n.len());
            assert(forall|i: int| 0 <= i < n.len() ==> t[i] == #[trigger] n[i]);
            assert(t[n.len() as int] == 32u8);
        },
        Op::CloseFunctionLong { .. } => {
            reveal_strlit("CloseFunctionLong");
            vstd::string::is_ascii_spec_bytes("CloseFunctionLong");
            assert(vstd::string::is_ascii("CloseFunctionLong"));
            reveal_strlit(" {");
            vstd::string::is_ascii_spec_bytes(" {");
            assert(vstd::string::is_ascii(" {"));
            let n = "CloseFunctionLong".spec_bytes();
            assert(t.len() > n.len());
            assert(forall|i: int| 0 <= i < n.len() ==> t[i] == #[trigger] n[i]);
            assert(t[n.len() as int] == 32u8);
        },
        Op::CloseLocal => {
            reveal_strlit("CloseLocal");
            vstd::string::is_ascii_spec_bytes("CloseLocal");
            assert(vstd::string::is_ascii("CloseLocal"));
        },
        Op::GetUpvalue { .. } => {
            reveal_strlit("GetUpvalue");
            vstd::string::is_ascii_spec_bytes("GetUpvalue");
            assert(vstd::string::is_ascii("GetUpvalue"));
            reveal_strlit(" {");
            vstd::string::is_ascii_spec_bytes(" {");
            assert(vstd::string::is_ascii(" {"));
            let n = "GetUpvalue".spec_bytes();
            assert(t.len() > n.len());
            assert(forall|i: int| 0 <= i < n.len() ==> t[i] == #[trigger] n[i]);
            assert(t[n.len() as int] == 32u8);
        },
        _ => {},
    }
}

/// The text of an instruction with an opcode from 36 to 41 begins with
/// its own name.
#[verifier::spinoff_prover]
#[verifier::rlimit(100)]
proof fn lemma_text_opcode_6(op: Op)
    requires
        36 <= opcode(op) < 42,
    ensures
        text_opcode(op_text(op)) == opcode(op) as int,
{
    let t = op_text(op);
    match op {
        Op::GetUpvalueLong { .. } => {
            reveal_strlit("GetUpvalueLong");
            vstd::string::is_ascii_spec_bytes("GetUpvalueLong");
            assert(vstd::string::is_ascii("GetUpvalueLong"));
            reveal_strlit(" {");
            vstd::string::is_ascii_spec_bytes(" {");
            assert(vstd::string::is_ascii(" {"));
            let n = "GetUpvalueLong".spec_bytes();
            assert(t.len() > n.len());
            assert(forall|i: int| 0 <= i < n.len() ==> t[i] == #[trigger] n[i]);
            assert(t[n.len() as int] == 32u8);
        },
        Op::SetUpvalue { .. } => {
            reveal_strlit("SetUpvalue");
            vstd::string::is_ascii_spec_bytes("SetUpvalue");
            assert(vstd::string::is_ascii("SetUpvalue"));
            reveal_strlit(" {");
            vstd::string::is_ascii_spec_bytes(" {");
            assert(vstd::string::is_ascii(" {"));
            let n = "SetUpvalue".spec_bytes();
            assert(t.len() > n.len());
            assert(forall|i: int| 0 <= i < n.len() ==> t[i] == #[trigger] n[i]);
            assert(t[n.len() as int] == 32u8);
        },
        Op::SetUpvalueLong { .. } => {
            reveal_strlit("SetUpvalueLong");
            vstd::string::is_ascii_spec_bytes("SetUpvalueLong");
            assert(vstd::string::is_ascii("SetUpvalueLong"));
            reveal_strlit(" {");
            vstd::string::is_ascii_spec_bytes(" {");
            assert(vstd::string::is_ascii(" {"));
            let n = "SetUpvalueLong".spec_bytes();
            assert(t.len() > n.len());
            assert(forall|i: int| 0 <= i < n.len() ==> t[i] == #[trigger] n[i]);
            assert(t[n.len() as int] == 32u8);
        },
        Op::Class { .. } => {
            reveal_strlit("Class");
            vstd::string::is_ascii_spec_bytes("Class");
            assert(vstd::string::is_ascii("Class"));
            reveal_strlit(" {");
            vstd::string::is_ascii_spec_bytes(" {");
            assert(vstd::string::is_ascii(" {"));
            let n = "Class".spec_bytes();
            assert(t.len() > n.len());
            assert(forall|i: int| 0 <= i < n.len() ==> t[i] == #[trigger] n[i]);
            assert(t[n.len() as int] == 32u8);
        },
        Op::ClassLong { .. } => {
            reveal_strlit("ClassLong");
            vstd::string::is_ascii_spec_bytes("ClassLong");
            assert(vstd::string::is_ascii("ClassLong"));
            reveal_strlit(" {");
            vstd::string::is_ascii_spec_bytes(" {");
            assert(vstd::string::is_ascii(" {"));
            let n = "ClassLong".spec_bytes();
            assert(t.len() > n.len());
            assert(forall|i: int| 0 <= i < n.len() ==> t[i] == #[trigger] n[i]);
            assert(t[n.len() as int] == 32u8);
        },
        Op::GetField { .. } => {
            reveal_strlit("GetField");
            vstd::string::is_ascii_spec_bytes("GetField");
            assert(vstd::string::is_ascii("GetField"));
            reveal_strlit(" {");
            vstd::string::is_ascii_spec_bytes(" {");
            assert(vstd::string::is_ascii(" {"));
            let n = "GetField".spec_bytes();
            assert(t.len() > n.len());
            assert(forall|i: int| 0 <= i < n.len() ==> t[i] == #[trigger] n[i]);
            assert(t[n.len() as int] == 32u8);
        },
        _ => {},
    }
}

/// The text of an instruction with an opcode from 42 to 46 begins with
/// its own name.
#[verifier::spinoff_prover]
#[verifier::rlimit(100)]
proof fn lemma_text_opcode_7(op: Op)
    requires
        42 <= opcode(op) < 47,
    ensures
        text_opcode(op_text(op)) == opcode(op) as int,
{
    let t = op_text(op);
    match op {
        Op::GetFieldLong { .. } => {
            reveal_strlit("GetFieldLong");
            vstd::string::is_ascii_spec_bytes("GetFieldLong");
            assert(vstd::string::is_ascii("GetFieldLong"));
            reveal_strlit(" {");
            vstd::string::is_ascii_spec_bytes(" {");
            assert(vstd::string::is_ascii(" {"));
            let n = "GetFieldLong".spec_bytes();
            assert(t.len() > n.len());
            assert(forall|i: int| 0 <= i < n.len() ==> t[i] == #[trigger] n[i]);
            assert(t[n.len() as int] == 32u8);
        },
        Op::SetField { .. } => {
            reveal_strlit("SetField");
            vstd::string::is_ascii_spec_bytes("SetField");
            assert(vstd::string::is_ascii("SetField"));
            reveal_strlit(" {");
            vstd::string::is_ascii_spec_bytes(" {");
            assert(vstd::string::is_ascii(" {"));
            let n = "SetField".spec_bytes();
            assert(t.len() > n.len());
            assert(forall|i: int| 0 <= i < n.len() ==> t[i] == #[trigger] n[i]);
            assert(t[n.len() as int] == 32u8);
        },
        Op::SetFieldLong { .. } => {
            reveal_strlit("SetFieldLong");
            vstd::string::is_ascii_spec_bytes("SetFieldLong");
            assert(vstd::string::is_ascii("SetFieldLong"));
            reveal_strlit(" {");
            vstd::string::is_ascii_spec_bytes(" {");
            assert(vstd::string::is_ascii(" {"));
            let n = "SetFieldLong".spec_bytes();
            assert(t.len() > n.len());
            assert(forall|i: int| 0 <= i < n.len() ==> t[i] == #[trigger] n[i]);
            assert(t[n.len() as int] == 32u8);
        },
        Op::Invoke { .. } => {
            reveal_strlit("Invoke");
            vstd::string::is_ascii_spec_bytes("Invoke");
            assert(vstd::string::is_ascii("Invoke"));
            reveal_strlit(" {");
            vstd::string::is_ascii_spec_bytes(" {");
            assert(vstd::string::is_ascii(" {"));
            let n = "Invoke".spec_bytes();
            assert(t.len() > n.len());
            assert(forall|i: int| 0 <= i < n.len() ==> t[i] == #[trigger] n[i]);
            assert(t[n.len() as int] == 32u8);
        },
        Op::InvokeLong { .. } => {
            reveal_strlit("InvokeLong");
            vstd::string::is_ascii_spec_bytes("InvokeLong");
            assert(vstd::string::is_ascii("InvokeLong"));
            reveal_strlit(" {");
            vstd::string::is_ascii_spec_bytes(" {");
            assert(vstd::string::is_ascii(" {"));
            let n = "InvokeLong".spec_bytes();
            assert(t.len() > n.len());
            assert(forall|i: int| 0 <= i < n.len() ==> t[i] == #[trigger] n[i]);
            assert(t[n.len() as int] == 32u8);
        },
        _ => {},
    }
}

/// The text of an instruction begins with its own name.
proof fn lemma_text_opcode(op: Op)
    ensures
        text_opcode(op_text(op)) == opcode(op) as int,
{
    if opcode(op) < 6 {
        lemma_text_opcode_0(op);
    } else if opcode(op) < 12 {
        lemma_text_opcode_1(op);
    } else if opcode(op) < 18 {
        lemma_text_opcode_2(op);
    } else if opcode(op) < 24 {
        lemma_text_opcode_3(op);
    } else if opcode(op) < 30 {
        lemma_text_opcode_4(op);
    } else if opcode(op) < 36 {
        lemma_text_opcode_5(op);
    } else if opcode(op) < 42 {
        lemma_text_opcode_6(op);
    } else if opcode(op) < 47 {
        lemma_text_opcode_7(op);
    }
}

/// The text of an instruction tells its opcode: two instructions written
/// alike have the same opcode, so instructions of distinct kinds are never
/// listed alike.
pub proof fn lemma_op_text_opcode(a: Op, b: Op)
    requires
        op_text(a) == op_text(b),
    ensures
        opcode(a) == opcode(b),
{
    lemma_text_opcode(a);
    lemma_text_opcode(b);
}


/// The text of an instruction with one operand tells the operand's value.
proof fn lemma_one_field_injective(name: Seq<u8>, field: Seq<u8>, x: nat, y: nat)
    requires
        one_field(name, field, x) == one_field(name, field, y),
    ensures
        x == y,
{
    let p = name + " {".spec_bytes() + " ".spec_bytes() + field + "=".spec_bytes();
    let tx = one_field(name, field, x);
    let ty = one_field(name, field, y);
    assert(tx =~= p + decimal(x) + " }".spec_bytes());
    assert(ty =~= p + decimal(y) + " }".spec_bytes());
    assert(decimal(x) =~= tx.subrange(p.len() as int, (p.len() + decimal(x).len()) as int));
    assert(decimal(y) =~= ty.subrange(p.len() as int, (p.len() + decimal(y).len()) as int));
    lemma_decimal_injective(x, y);
}

/// Where the same prefix and suffix surround two parts, the parts agree.
proof fn lemma_cancel_around(p: Seq<u8>, d1: Seq<u8>, d2: Seq<u8>, s: Seq<u8>)
    requires
        p + d1 + s == p + d2 + s,
    ensures
        d1 == d2,
{
    let t1 = p + d1 + s;
    let t2 = p + d2 + s;
    assert(t1.len() == t2.len());
    assert(d1 =~= t1.subrange(p.len() as int, (p.len() + d1.len()) as int));
    assert(d2 =~= t2.subrange(p.len() as int, (p.len() + d2.len()) as int));
}

/// Where the same prefix comes before digits and then a space, the digits
/// and what follows them agree.
proof fn lemma_cancel_digits(p: Seq<u8>, d1: Seq<u8>, r1: Seq<u8>, d2: Seq<u8>, r2: Seq<u8>)
    requires
        p + d1 + r1 == p + d2 + r2,
        forall|i: int| 0 <= i < d1.len() ==> 48 <= #[trigger] d1[i] <= 57,
        forall|i: int| 0 <= i < d2.len() ==> 48 <= #[trigger] d2[i] <= 57,
        r1.len() >= 1 && r1[0] == 32u8,
        r2.len() >= 1 && r2[0] == 32u8,
    ensures
        d1 == d2,
        r1 == r2,
{
    let t1 = p + d1 + r1;
    let t2 = p + d2 + r2;
    if d1.len() < d2.len() {
        assert(t1[(p.len() + d1.len()) as int] == r1[0]);
        assert(t2[(p.len() + d1.len()) as int] == d2[d1.len() as int]);
    } else if d2.len() < d1.len() {
        assert(t2[(p.len() + d2.len()) as int] == r2[0]);
        assert(t1[(p.len() + d2.len()) as int] == d1[d2.len() as int]);
    }
    assert(d1 =~= t1.subrange(p.len() as int, (p.len() + d1.len()) as int));
    assert(d2 =~= t2.subrange(p.len() as int, (p.len() + d2.len()) as int));
    assert(r1 =~= t1.subrange((p.len() + d1.len()) as int, t1.len() as int));
    assert(r2 =~= t2.subrange((p.len() + d2.len()) as int, t2.len() as int));
}

/// The text of an instruction with two operands tells both values.
proof fn lemma_two_fields_injective(name: Seq<u8>, f1: Seq<u8>, x1: nat, y1: nat, f2: Seq<u8>, x2: nat, y2: nat)
    requires
        two_fields(name, f1, x1, f2, x2) == two_fields(name, f1, y1, f2, y2),
    ensures
        x1 == y1,
        x2 == y2,
{
    reveal_strlit(" ");
    vstd::string::is_ascii_spec_bytes(" ");
    assert(vstd::string::is_ascii(" "));
    assert(" ".spec_bytes() =~= seq![32u8]);
    let p = name + " {".spec_bytes() + " ".spec_bytes() + f1 + "=".spec_bytes();
    let m = " ".spec_bytes() + f2 + "=".spec_bytes();
    let e = " }".spec_bytes();
    assert(two_fields(name, f1, x1, f2, x2) =~= p + decimal(x1) + (m + decimal(x2) + e));
    assert(two_fields(name, f1, y1, f2, y2) =~= p + decimal(y1) + (m + decimal(y2) + e));
    lemma_decimal_digits(x1);
    lemma_decimal_digits(y1);
    assert((m + decimal(x2) + e)[0] == 32u8);
    assert((m + decimal(y2) + e)[0] == 32u8);
    lemma_cancel_digits(p, decimal(x1), m + decimal(x2) + e, decimal(y1), m + decimal(y2) + e);
    lemma_decimal_injective(x1, y1);
    lemma_cancel_around(m, decimal(x2), decimal(y2), e);
    lemma_decimal_injective(x2, y2);
}

/// Instructions with an opcode from 0 to 7 that are written alike are
/// the same.
#[verifier::spinoff_prover]
#[verifier::rlimit(100)]
proof fn lemma_op_text_injective_0(a: Op, b: Op)
    requires
        0 <= opcode(a) < 8,
        opcode(a) == opcode(b),
        op_text(a) == op_text(b),
    ensures
        a == b,
{
    match a {
        Op::Return => {
            assert(b is Return);
        },
        Op::Nil => {
            assert(b is Nil);
        },
        Op::True => {
            assert(b is True);
        },
        Op::False => {
            assert(b is False);
        },
        Op::Constant { constant_index } => {
            assert(b is Constant);
            let y = b->Constant_constant_index;
            lemma_one_field_injective("Constant".spec_bytes(), "constant_index".spec_bytes(), constant_index as nat, y as nat);
        },
        Op::ConstantLong { constant_index } => {
            assert(b is ConstantLong);
            let y = b->ConstantLong_constant_index;
            lemma_one_field_injective("ConstantLong".spec_bytes(), "constant_index".spec_bytes(), constant_index as nat, y as nat);
        },
        Op::Not => {
            assert(b is Not);
        },
        Op::Negate => {
            assert(b is Negate);
        },
        _ => {},
    }
}

/// Instructions with an opcode from 8 to 15 that are written alike are
/// the same.
#[verifier::spinoff_prover]
#[verifier::rlimit(100)]
proof fn lemma_op_text_injective_1(a: Op, b: Op)
    requires
        8 <= opcode(a) < 16,
        opcode(a) == opcode(b),
        op_text(a) == op_text(b),
    ensures
        a == b,
{
    match a {
        Op::Add => {
            assert(b is Add);
        },
        Op::Subtract => {
            assert(b is Subtract);
        },
        Op::Multiply => {
            assert(b is Multiply);
        },
        Op::Divide => {
            assert(b is Divide);
        },
        Op::Equal => {
            assert(b is Equal);
        },
        Op::Greater => {
            assert(b is Greater);
        },
        Op::Less => {
            assert(b is Less);
        },
        Op::Print => {
            assert(b is Print);
        },
        _ => {},
    }
}

/// Instructions with an opcode from 16 to 23 that are written alike are
/// the same.
#[verifier::spinoff_prover]
#[verifier::rlimit(100)]
proof fn lemma_op_text_injective_2(a: Op, b: Op)
    requires
        16 <= opcode(a) < 24,
        opcode(a) == opcode(b),
        op_text(a) == op_text(b),
    ensures
        a == b,
{
    match a {
        Op::Pop => {
            assert(b is Pop);
        },
        Op::DefineGlobal { constant_index } => {
            assert(b is DefineGlobal);
            let y = b->DefineGlobal_constant_index;
            lemma_one_field_injective("DefineGlobal".spec_bytes(), "constant_index".spec_bytes(), constant_index as nat, y as nat);
        },
        Op::DefineGlobalLong { constant_index } => {
            assert(b is DefineGlobalLong);
            let y = b->DefineGlobalLong_constant_index;
            lemma_one_field_injective("DefineGlobalLong".spec_bytes(), "constant_index".spec_bytes(), constant_index as nat, y as nat);
        },
        Op::GetGlobal { constant_index } => {
            assert(b is GetGlobal);
            let y = b->GetGlobal_constant_index;
            lemma_one_field_injective("GetGlobal".spec_bytes(), "constant_index".spec_bytes(), constant_index as nat, y as nat);
        },
        Op::GetGlobalLong { constant_index } => {
            assert(b is GetGlobalLong);
            let y = b->GetGlobalLong_constant_index;
            lemma_one_field_injective("GetGlobalLong".spec_bytes(), "constant_index".spec_bytes(), constant_index as nat, y as nat);
        },
        Op::SetGlobal { constant_index } => {
            assert(b is SetGlobal);
            let y = b->SetGlobal_constant_index;
            lemma_one_field_injective("SetGlobal".spec_bytes(), "constant_index".spec_bytes(), constant_index as nat, y as nat);
        },
        Op::SetGlobalLong { constant_index } => {
            assert(b is SetGlobalLong);
            let y = b->SetGlobalLong_constant_index;
            lemma_one_field_injective("SetGlobalLong".spec_bytes(), "constant_index".spec_bytes(), constant_index as nat, y as nat);
        },
        Op::GetLocal { local_index } => {
            assert(b is GetLocal);
            let y = b->GetLocal_local_index;
            lemma_one_field_injective("GetLocal".spec_bytes(), "local_index".spec_bytes(), local_index as nat, y as nat);
        },
        _ => {},
    }
}

/// Instructions with an opcode from 24 to 31 that are written alike are
/// the same.
#[verifier::spinoff_prover]
#[verifier::rlimit(100)]
proof fn lemma_op_text_injective_3(a: Op, b: Op)
    requires
        24 <= opcode(a) < 32,
        opcode(a) == opcode(b),
        op_text(a) == op_text(b),
    ensures
        a == b,
{
    match a {
        Op::GetLocalLong { local_index } => {
            assert(b is GetLocalLong);
            let y = b->GetLocalLong_local_index;
            lemma_one_field_injective("GetLocalLong".spec_bytes(), "local_index".spec_bytes(), local_index as nat, y as nat);
        },
        Op::SetLocal { local_index } => {
            assert(b is SetLocal);
            let y = b->SetLocal_local_index;
            lemma_one_field_injective("SetLocal".spec_bytes(), "local_index".spec_bytes(), local_index as nat, y as nat);
        },
        Op::SetLocalLong { local_index } => {
            assert(b is SetLocalLong);
            let y = b->SetLocalLong_local_index;
            lemma_one_field_injective("SetLocalLong".spec_bytes(), "local_index".spec_bytes(), local_index as nat, y as nat);
        },
        Op::JumpIfFalse { distance } => {
            assert(b is JumpIfFalse);
            let y = b->JumpIfFalse_distance;
            lemma_one_field_injective("JumpIfFalse".spec_bytes(), "distance".spec_bytes(), distance as nat, y as nat);
        },
        Op::Jump { distance } => {
            assert(b is Jump);
            let y = b->Jump_distance;
            lemma_one_field_injective("Jump".spec_bytes(), "distance".spec_bytes(), distance as nat, y as nat);
        },
        Op::Loop { distance } => {
            assert(b is Loop);
            let y = b->Loop_distance;
            lemma_one_field_injective("Loop".spec_bytes(), "distance".spec_bytes(), distance as nat, y as nat);
        },
        Op::PushFrame => {
            assert(b is PushFrame);
        },
        Op::Call { arity } => {
            assert(b is Call);
            let y = b->Call_arity;
            lemma_one_field_injective("Call".spec_bytes(), "arity".spec_bytes(), arity as nat, y as nat);
        },
        _ => {},
    }
}

/// Instructions with an opcode from 32 to 39 that are written alike are
/// the same.
#[verifier::spinoff_prover]
#[verifier::rlimit(100)]
proof fn lemma_op_text_injective_4(a: Op, b: Op)
    requires
        32 <= opcode(a) < 40,
        opcode(a) == opcode(b),
        op_text(a) == op_text(b),
    ensures
        a == b,
{
    match a {
        Op::CloseFunction { function_index } => {
            assert(b is CloseFunction);
            let y = b->CloseFunction_function_index;
            lemma_one_field_injective("CloseFunction".spec_bytes(), "function_index".spec_bytes(), function_index as nat, y as nat);
        },
        Op::CloseFunctionLong { function_index } => {
            assert(b is CloseFunctionLong);
            let y = b->CloseFunctionLong_function_index;
            lemma_one_field_injective("CloseFunctionLong".spec_bytes(), "function_index".spec_bytes(), function_index as nat, y as nat);
        },
        Op::CloseLocal => {
            assert(b is CloseLocal);
        },
        Op::GetUpvalue { upvalue_index } => {
            assert(b is GetUpvalue);
            let y = b->GetUpvalue_upvalue_index;
            lemma_one_field_injective("GetUpvalue".spec_bytes(), "upvalue_index".spec_bytes(), upvalue_index as nat, y as nat);
        },
        Op::GetUpvalueLong { upvalue_index } => {
            assert(b is GetUpvalueLong);
            let y = b->GetUpvalueLong_upvalue_index;
            lemma_one_field_injective("GetUpvalueLong".spec_bytes(), "upvalue_index".spec_bytes(), upvalue_index as nat, y as nat);
        },
        Op::SetUpvalue { upvalue_index } => {
            assert(b is SetUpvalue);
            let y = b->SetUpvalue_upvalue_index;
            lemma_one_field_injective("SetUpvalue".spec_bytes(), "upvalue_index".spec_bytes(), upvalue_index as nat, y as nat);
        },
        Op::SetUpvalueLong { upvalue_index } => {
            assert(b is SetUpvalueLong);
            let y = b->SetUpvalueLong_upvalue_index;
            lemma_one_field_injective("SetUpvalueLong".spec_bytes(), "upvalue_index".spec_bytes(), upvalue_index as nat, y as nat);
        },
        Op::Class { class_index } => {
            assert(b is Class);
            let y = b->Class_class_index;
            lemma_one_field_injective("Class".spec_bytes(), "class_index".spec_bytes(), class_index as nat, y as nat);
        },
        _ => {},
    }
}

/// Instructions with an opcode from 40 to 46 that are written alike are
/// the same.
#[verifier::spinoff_prover]
#[verifier::rlimit(100)]
proof fn lemma_op_text_injective_5(a: Op, b: Op)
    requires
        40 <= opcode(a) < 47,
        opcode(a) == opcode(b),
        op_text(a) == op_text(b),
    ensures
        a == b,
{
    match a {
        Op::ClassLong { class_index } => {
            assert(b is ClassLong);
            let y = b->ClassLong_class_index;
            lemma_one_field_injective("ClassLong".spec_bytes(), "class_index".spec_bytes(), class_index as nat, y as nat);
        },
        Op::GetField { constant_index } => {
            assert(b is GetField);
            let y = b->GetField_constant_index;
            lemma_one_field_injective("GetField".spec_bytes(), "constant_index".spec_bytes(), constant_index as nat, y as nat);
        },
        Op::GetFieldLong { constant_index } => {
            assert(b is GetFieldLong);
            let y = b->GetFieldLong_constant_index;
            lemma_one_field_injective("GetFieldLong".spec_bytes(), "constant_index".spec_bytes(), constant_index as nat, y as nat);
        },
        Op::SetField { constant_index } => {
            assert(b is SetField);
            let y = b->SetField_constant_index;
            lemma_one_field_injective("SetField".spec_bytes(), "constant_index".spec_bytes(), constant_index as nat, y as nat);
        },
        Op::SetFieldLong { constant_index } => {
            assert(b is SetFieldLong);
            let y = b->SetFieldLong_constant_index;
            lemma_one_field_injective("SetFieldLong".spec_bytes(), "constant_index".spec_bytes(), constant_index as nat, y as nat);
        },
        Op::Invoke { constant_index, arity } => {
            assert(b is Invoke);
            let y1 = b->Invoke_constant_index;
            let y2 = b->Invoke_arity;
            lemma_two_fields_injective("Invoke".spec_bytes(), "constant_index".spec_bytes(), constant_index as nat, y1 as nat, "arity".spec_bytes(), arity as nat, y2 as nat);
        },
        Op::InvokeLong { constant_index, arity } => {
            assert(b is InvokeLong);
            let y1 = b->InvokeLong_constant_index;
            let y2 = b->InvokeLong_arity;
            lemma_two_fields_injective("InvokeLong".spec_bytes(), "constant_index".spec_bytes(), constant_index as nat, y1 as nat, "arity".spec_bytes(), arity as nat, y2 as nat);
        },
        _ => {},
    }
}

/// The text of an instruction tells the whole instruction: two
/// instructions written alike are the same instruction.
pub proof fn lemma_op_text_injective(a: Op, b: Op)
    requires
        op_text(a) == op_text(b),
    ensures
        a == b,
{
    lemma_op_text_opcode(a, b);
    if opcode(a) < 8 {
        lemma_op_text_injective_0(a, b);
    } else if opcode(a) < 16 {
        lemma_op_text_injective_1(a, b);
    } else if opcode(a) < 24 {
        lemma_op_text_injective_2(a, b);
    } else if opcode(a) < 32 {
        lemma_op_text_injective_3(a, b);
    } else if opcode(a) < 40 {
        lemma_op_text_injective_4(a, b);
    } else if opcode(a) < 47 {
        lemma_op_text_injective_5(a, b);
    }
}

} // verus!
