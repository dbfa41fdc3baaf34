use vstd::prelude::*;

use crate::codec::{decode_le, lemma_le_roundtrip, le_bytes, pow256, Codec, DecodeError, U16, U24, U8};

verus! {

/// A bytecode instruction.
#[derive(Debug, PartialEq, Eq, Structural)]
pub enum Op {
    Return,
    Nil,
    True,
    False,
    Constant { constant_index: usize },
    ConstantLong { constant_index: usize },
    Not,
    Negate,
    Add,
    Subtract,
    Multiply,
    Divide,
    Equal,
    Greater,
    Less,
    Print,
    Pop,
    DefineGlobal { constant_index: usize },
    DefineGlobalLong { constant_index: usize },
    GetGlobal { constant_index: usize },
    GetGlobalLong { constant_index: usize },
    SetGlobal { constant_index: usize },
    SetGlobalLong { constant_index: usize },
    GetLocal { local_index: usize },
    GetLocalLong { local_index: usize },
    SetLocal { local_index: usize },
    SetLocalLong { local_index: usize },
    JumpIfFalse { distance: usize },
    Jump { distance: usize },
    Loop { distance: usize },
    PushFrame,
    Call { arity: usize },
    CloseFunction { function_index: usize },
    CloseFunctionLong { function_index: usize },
    CloseLocal,
    GetUpvalue { upvalue_index: usize },
    GetUpvalueLong { upvalue_index: usize },
    SetUpvalue { upvalue_index: usize },
    SetUpvalueLong { upvalue_index: usize },
    Class { class_index: usize },
    ClassLong { class_index: usize },
    GetField { constant_index: usize },
    GetFieldLong { constant_index: usize },
    SetField { constant_index: usize },
    SetFieldLong { constant_index: usize },
    Invoke { constant_index: usize, arity: usize },
    InvokeLong { constant_index: usize, arity: usize },
}

/// The byte that starts an instruction's encoding.
pub open spec fn opcode(op: Op) -> u8 {
    match op {
        Op::Return => 0u8,
        Op::Nil => 1u8,
        Op::True => 2u8,
        Op::False => 3u8,
        Op::Constant { .. } => 4u8,
        Op::ConstantLong { .. } => 5u8,
        Op::Not => 6u8,
        Op::Negate => 7u8,
        Op::Add => 8u8,
        Op::Subtract => 9u8,
        Op::Multiply => 10u8,
        Op::Divide => 11u8,
        Op::Equal => 12u8,
        Op::Greater => 13u8,
        Op::Less => 14u8,
        Op::Print => 15u8,
        Op::Pop => 16u8,
        Op::DefineGlobal { .. } => 17u8,
        Op::DefineGlobalLong { .. } => 18u8,
        Op::GetGlobal { .. } => 19u8,
        Op::GetGlobalLong { .. } => 20u8,
        Op::SetGlobal { .. } => 21u8,
        Op::SetGlobalLong { .. } => 22u8,
        Op::GetLocal { .. } => 23u8,
        Op::GetLocalLong { .. } => 24u8,
        Op::SetLocal { .. } => 25u8,
        Op::SetLocalLong { .. } => 26u8,
        Op::JumpIfFalse { .. } => 27u8,
        Op::Jump { .. } => 28u8,
        Op::Loop { .. } => 29u8,
        Op::PushFrame => 30u8,
        Op::Call { .. } => 31u8,
        Op::CloseFunction { .. } => 32u8,
        Op::CloseFunctionLong { .. } => 33u8,
        Op::CloseLocal => 34u8,
        Op::GetUpvalue { .. } => 35u8,
        Op::GetUpvalueLong { .. } => 36u8,
        Op::SetUpvalue { .. } => 37u8,
        Op::SetUpvalueLong { .. } => 38u8,
        Op::Class { .. } => 39u8,
        Op::ClassLong { .. } => 40u8,
        Op::GetField { .. } => 41u8,
        Op::GetFieldLong { .. } => 42u8,
        Op::SetField { .. } => 43u8,
        Op::SetFieldLong { .. } => 44u8,
        Op::Invoke { .. } => 45u8,
        Op::InvokeLong { .. } => 46u8,
    }
}

/// The bytes that encode an instruction: its opcode, then each operand in
/// its width, least significant byte first.
pub open spec fn op_encoding(op: Op) -> Seq<u8> {
    match op {
        Op::Return => seq![0u8],
        Op::Nil => seq![1u8],
        Op::True => seq![2u8],
        Op::False => seq![3u8],
        Op::Constant { constant_index } => seq![4u8] + le_bytes(constant_index as int, 1),
        Op::ConstantLong { constant_index } => seq![5u8] + le_bytes(constant_index as int, 3),
        Op::Not => seq![6u8],
        Op::Negate => seq![7u8],
        Op::Add => seq![8u8],
        Op::Subtract => seq![9u8],
        Op::Multiply => seq![10u8],
        Op::Divide => seq![11u8],
        Op::Equal => seq![12u8],
        Op::Greater => seq![13u8],
        Op::Less => seq![14u8],
        Op::Print => seq![15u8],
        Op::Pop => seq![16u8],
        Op::DefineGlobal { constant_index } => seq![17u8] + le_bytes(constant_index as int, 1),
        Op::DefineGlobalLong { constant_index } => seq![18u8] + le_bytes(constant_index as int, 3),
        Op::GetGlobal { constant_index } => seq![19u8] + le_bytes(constant_index as int, 1),
        Op::GetGlobalLong { constant_index } => seq![20u8] + le_bytes(constant_index as int, 3),
        Op::SetGlobal { constant_index } => seq![21u8] + le_bytes(constant_index as int, 1),
        Op::SetGlobalLong { constant_index } => seq![22u8] + le_bytes(constant_index as int, 3),
        Op::GetLocal { local_index } => seq![23u8] + le_bytes(local_index as int, 1),
        Op::GetLocalLong { local_index } => seq![24u8] + le_bytes(local_index as int, 3),
        Op::SetLocal { local_index } => seq![25u8] + le_bytes(local_index as int, 1),
        Op::SetLocalLong { local_index } => seq![26u8] + le_bytes(local_index as int, 3),
        Op::JumpIfFalse { distance } => seq![27u8] + le_bytes(distance as int, 2),
        Op::Jump { distance } => seq![28u8] + le_bytes(distance as int, 2),
        Op::Loop { distance } => seq![29u8] + le_bytes(distance as int, 2),
        Op::PushFrame => seq![30u8],
        Op::Call { arity } => seq![31u8] + le_bytes(arity as int, 1),
        Op::CloseFunction { function_index } => seq![32u8] + le_bytes(function_index as int, 1),
        Op::CloseFunctionLong { function_index } => seq![33u8] + le_bytes(function_index as int, 3),
        Op::CloseLocal => seq![34u8],
        Op::GetUpvalue { upvalue_index } => seq![35u8] + le_bytes(upvalue_index as int, 1),
        Op::GetUpvalueLong { upvalue_index } => seq![36u8] + le_bytes(upvalue_index as int, 3),
        Op::SetUpvalue { upvalue_index } => seq![37u8] + le_bytes(upvalue_index as int, 1),
        Op::SetUpvalueLong { upvalue_index } => seq![38u8] + le_bytes(upvalue_index as int, 3),
        Op::Class { class_index } => seq![39u8] + le_bytes(class_index as int, 1),
        Op::ClassLong { class_index } => seq![40u8] + le_bytes(class_index as int, 3),
        Op::GetField { constant_index } => seq![41u8] + le_bytes(constant_index as int, 1),
        Op::GetFieldLong { constant_index } => seq![42u8] + le_bytes(constant_index as int, 3),
        Op::SetField { constant_index } => seq![43u8] + le_bytes(constant_index as int, 1),
        Op::SetFieldLong { constant_index } => seq![44u8] + le_bytes(constant_index as int, 3),
        Op::Invoke { constant_index, arity } => seq![45u8] + le_bytes(constant_index as int, 1) + le_bytes(arity as int, 1),
        Op::InvokeLong { constant_index, arity } => seq![46u8] + le_bytes(constant_index as int, 3) + le_bytes(arity as int, 1),
    }
}

/// Every operand of the instruction fits in its encoding's width.
pub open spec fn operands_fit(op: Op) -> bool {
    match op {
        Op::Constant { constant_index } => constant_index < pow256(1),
        Op::ConstantLong { constant_index } => constant_index < pow256(3),
        Op::DefineGlobal { constant_index } => constant_index < pow256(1),
        Op::DefineGlobalLong { constant_index } => constant_index < pow256(3),
        Op::GetGlobal { constant_index } => constant_index < pow256(1),
        Op::GetGlobalLong { constant_index } => constant_index < pow256(3),
        Op::SetGlobal { constant_index } => constant_index < pow256(1),
        Op::SetGlobalLong { constant_index } => constant_index < pow256(3),
        Op::GetLocal { local_index } => local_index < pow256(1),
        Op::GetLocalLong { local_index } => local_index < pow256(3),
        Op::SetLocal { local_index } => local_index < pow256(1),
        Op::SetLocalLong { local_index } => local_index < pow256(3),
        Op::JumpIfFalse { distance } => distance < pow256(2),
        Op::Jump { distance } => distance < pow256(2),
        Op::Loop { distance } => distance < pow256(2),
        Op::Call { arity } => arity < pow256(1),
        Op::CloseFunction { function_index } => function_index < pow256(1),
        Op::CloseFunctionLong { function_index } => function_index < pow256(3),
        Op::GetUpvalue { upvalue_index } => upvalue_index < pow256(1),
        Op::GetUpvalueLong { upvalue_index } => upvalue_index < pow256(3),
        Op::SetUpvalue { upvalue_index } => upvalue_index < pow256(1),
        Op::SetUpvalueLong { upvalue_index } => upvalue_index < pow256(3),
        Op::Class { class_index } => class_index < pow256(1),
        Op::ClassLong { class_index } => class_index < pow256(3),
        Op::GetField { constant_index } => constant_index < pow256(1),
        Op::GetFieldLong { constant_index } => constant_index < pow256(3),
        Op::SetField { constant_index } => constant_index < pow256(1),
        Op::SetFieldLong { constant_index } => constant_index < pow256(3),
        Op::Invoke { constant_index, arity } => constant_index < pow256(1) && arity < pow256(1),
        Op::InvokeLong { constant_index, arity } => constant_index < pow256(3) && arity < pow256(1),
        _ => true,
    }
}

/// Decoding the operands of the instruction whose opcode is `byte`, from
/// `offset` on.
pub open spec fn decode_operands(bytes: Seq<u8>, byte: u8, offset: int) -> (Result<Op, DecodeError>, int) {
    if byte == 0 {
        (Ok(Op::Return), offset)
    } else if byte == 1 {
        (Ok(Op::Nil), offset)
    } else if byte == 2 {
        (Ok(Op::True), offset)
    } else if byte == 3 {
        (Ok(Op::False), offset)
    } else if byte == 4 {
        match decode_le(bytes, offset, 1) {
            (Ok(v), end) => (Ok(Op::Constant { constant_index: v as usize }), end),
            (Err(e), end) => (Err(e), end),
        }
    } else if byte == 5 {
        match decode_le(bytes, offset, 3) {
            (Ok(v), end) => (Ok(Op::ConstantLong { constant_index: v as usize }), end),
            (Err(e), end) => (Err(e), end),
        }
    } else if byte == 6 {
        (Ok(Op::Not), offset)
    } else if byte == 7 {
        (Ok(Op::Negate), offset)
    } else if byte == 8 {
        (Ok(Op::Add), offset)
    } else if byte == 9 {
        (Ok(Op::Subtract), offset)
    } else if byte == 10 {
        (Ok(Op::Multiply), offset)
    } else if byte == 11 {
        (Ok(Op::Divide), offset)
    } else if byte == 12 {
        (Ok(Op::Equal), offset)
    } else if byte == 13 {
        (Ok(Op::Greater), offset)
    } else if byte == 14 {
        (Ok(Op::Less), offset)
    } else if byte == 15 {
        (Ok(Op::Print), offset)
    } else if byte == 16 {
        (Ok(Op::Pop), offset)
    } else if byte == 17 {
        match decode_le(bytes, offset, 1) {
            (Ok(v), end) => (Ok(Op::DefineGlobal { constant_index: v as usize }), end),
            (Err(e), end) => (Err(e), end),
        }
    } else if byte == 18 {
        match decode_le(bytes, offset, 3) {
            (Ok(v), end) => (Ok(Op::DefineGlobalLong { constant_index: v as usize }), end),
            (Err(e), end) => (Err(e), end),
        }
    } else if byte == 19 {
        match decode_le(bytes, offset, 1) {
            (Ok(v), end) => (Ok(Op::GetGlobal { constant_index: v as usize }), end),
            (Err(e), end) => (Err(e), end),
        }
    } else if byte == 20 {
        match decode_le(bytes, offset, 3) {
            (Ok(v), end) => (Ok(Op::GetGlobalLong { constant_index: v as usize }), end),
            (Err(e), end) => (Err(e), end),
        }
    } else if byte == 21 {
        match decode_le(bytes, offset, 1) {
            (Ok(v), end) => (Ok(Op::SetGlobal { constant_index: v as usize }), end),
            (Err(e), end) => (Err(e), end),
        }
    } else if byte == 22 {
        match decode_le(bytes, offset, 3) {
            (Ok(v), end) => (Ok(Op::SetGlobalLong { constant_index: v as usize }), end),
            (Err(e), end) => (Err(e), end),
        }
    } else if byte == 23 {
        match decode_le(bytes, offset, 1) {
            (Ok(v), end) => (Ok(Op::GetLocal { local_index: v as usize }), end),
            (Err(e), end) => (Err(e), end),
        }
    } else if byte == 24 {
        match decode_le(bytes, offset, 3) {
            (Ok(v), end) => (Ok(Op::GetLocalLong { local_index: v as usize }), end),
            (Err(e), end) => (Err(e), end),
        }
    } else if byte == 25 {
        match decode_le(bytes, offset, 1) {
            (Ok(v), end) => (Ok(Op::SetLocal { local_index: v as usize }), end),
            (Err(e), end) => (Err(e), end),
        }
    } else if byte == 26 {
        match decode_le(bytes, offset, 3) {
            (Ok(v), end) => (Ok(Op::SetLocalLong { local_index: v as usize }), end),
            (Err(e), end) => (Err(e), end),
        }
    } else if byte == 27 {
        match decode_le(bytes, offset, 2) {
            (Ok(v), end) => (Ok(Op::JumpIfFalse { distance: v as usize }), end),
            (Err(e), end) => (Err(e), end),
        }
    } else if byte == 28 {
        match decode_le(bytes, offset, 2) {
            (Ok(v), end) => (Ok(Op::Jump { distance: v as usize }), end),
            (Err(e), end) => (Err(e), end),
        }
    } else if byte == 29 {
        match decode_le(bytes, offset, 2) {
            (Ok(v), end) => (Ok(Op::Loop { distance: v as usize }), end),
            (Err(e), end) => (Err(e), end),
        }
    } else if byte == 30 {
        (Ok(Op::PushFrame), offset)
    } else if byte == 31 {
        match decode_le(bytes, offset, 1) {
            (Ok(v), end) => (Ok(Op::Call { arity: v as usize }), end),
            (Err(e), end) => (Err(e), end),
        }
    } else if byte == 32 {
        match decode_le(bytes, offset, 1) {
            (Ok(v), end) => (Ok(Op::CloseFunction { function_index: v as usize }), end),
            (Err(e), end) => (Err(e), end),
        }
    } else if byte == 33 {
        match decode_le(bytes, offset, 3) {
            (Ok(v), end) => (Ok(Op::CloseFunctionLong { function_index: v as usize }), end),
            (Err(e), end) => (Err(e), end),
        }
    } else if byte == 34 {
        (Ok(Op::CloseLocal), offset)
    } else if byte == 35 {
        match decode_le(bytes, offset, 1) {
            (Ok(v), end) => (Ok(Op::GetUpvalue { upvalue_index: v as usize }), end),
            (Err(e), end) => (Err(e), end),
        }
    } else if byte == 36 {
        match decode_le(bytes, offset, 3) {
            (Ok(v), end) => (Ok(Op::GetUpvalueLong { upvalue_index: v as usize }), end),
            (Err(e), end) => (Err(e), end),
        }
    } else if byte == 37 {
        match decode_le(bytes, offset, 1) {
            (Ok(v), end) => (Ok(Op::SetUpvalue { upvalue_index: v as usize }), end),
            (Err(e), end) => (Err(e), end),
        }
    } else if byte == 38 {
        match decode_le(bytes, offset, 3) {
            (Ok(v), end) => (Ok(Op::SetUpvalueLong { upvalue_index: v as usize }), end),
            (Err(e), end) => (Err(e), end),
        }
    } else if byte == 39 {
        match decode_le(bytes, offset, 1) {
            (Ok(v), end) => (Ok(Op::Class { class_index: v as usize }), end),
            (Err(e), end) => (Err(e), end),
        }
    } else if byte == 40 {
        match decode_le(bytes, offset, 3) {
            (Ok(v), end) => (Ok(Op::ClassLong { class_index: v as usize }), end),
            (Err(e), end) => (Err(e), end),
        }
    } else if byte == 41 {
        match decode_le(bytes, offset, 1) {
            (Ok(v), end) => (Ok(Op::GetField { constant_index: v as usize }), end),
            (Err(e), end) => (Err(e), end),
        }
    } else if byte == 42 {
        match decode_le(bytes, offset, 3) {
            (Ok(v), end) => (Ok(Op::GetFieldLong { constant_index: v as usize }), end),
            (Err(e), end) => (Err(e), end),
        }
    } else if byte == 43 {
        match decode_le(bytes, offset, 1) {
            (Ok(v), end) => (Ok(Op::SetField { constant_index: v as usize }), end),
            (Err(e), end) => (Err(e), end),
        }
    } else if byte == 44 {
        match decode_le(bytes, offset, 3) {
            (Ok(v), end) => (Ok(Op::SetFieldLong { constant_index: v as usize }), end),
            (Err(e), end) => (Err(e), end),
        }
    } else if byte == 45 {
        match decode_le(bytes, offset, 1) {
            (Ok(v1), end1) => match decode_le(bytes, end1, 1) {
                (Ok(v2), end2) => (Ok(Op::Invoke { constant_index: v1 as usize, arity: v2 as usize }), end2),
                (Err(e), end2) => (Err(e), end2),
            },
            (Err(e), end1) => (Err(e), end1),
        }
    } else if byte == 46 {
        match decode_le(bytes, offset, 3) {
            (Ok(v1), end1) => match decode_le(bytes, end1, 1) {
                (Ok(v2), end2) => (Ok(Op::InvokeLong { constant_index: v1 as usize, arity: v2 as usize }), end2),
                (Err(e), end2) => (Err(e), end2),
            },
            (Err(e), end1) => (Err(e), end1),
        }
    } else {
        (Err(DecodeError::InvalidOpcode { byte }), offset)
    }
}

/// Decoding an instruction at `offset`: its opcode, then its operands.
pub open spec fn op_decode(bytes: Seq<u8>, offset: int) -> (Result<Op, DecodeError>, int) {
    if 0 <= offset < bytes.len() {
        decode_operands(bytes, bytes[offset], offset + 1)
    } else {
        (Err(DecodeError::InsufficientBytes), offset)
    }
}

impl Codec for Op {
    open spec fn spec_encoding(self) -> Seq<u8> {
        op_encoding(self)
    }

    open spec fn spec_decode(bytes: Seq<u8>, offset: int) -> (Result<Op, DecodeError>, int) {
        op_decode(bytes, offset)
    }

    fn encode(self, bytes: &mut Vec<u8>) {
        proof {
            reveal_with_fuel(le_bytes, 4);
        }
        let ghost start = bytes@;
        match self {
            Op::Return => {
                0u8.encode(bytes);
            },
            Op::Nil => {
                1u8.encode(bytes);
            },
            Op::True => {
                2u8.encode(bytes);
            },
            Op::False => {
                3u8.encode(bytes);
            },
            Op::Constant { constant_index } => {
                4u8.encode(bytes);
                U8::from(constant_index).encode(bytes);
            },
            Op::ConstantLong { constant_index } => {
                5u8.encode(bytes);
                U24::from(constant_index).encode(bytes);
            },
            Op::Not => {
                6u8.encode(bytes);
            },
            Op::Negate => {
                7u8.encode(bytes);
            },
            Op::Add => {
                8u8.encode(bytes);
            },
            Op::Subtract => {
                9u8.encode(bytes);
            },
            Op::Multiply => {
                10u8.encode(bytes);
            },
            Op::Divide => {
                11u8.encode(bytes);
            },
            Op::Equal => {
                12u8.encode(bytes);
            },
            Op::Greater => {
                13u8.encode(bytes);
            },
            Op::Less => {
                14u8.encode(bytes);
            },
            Op::Print => {
                15u8.encode(bytes);
            },
            Op::Pop => {
                16u8.encode(bytes);
            },
            Op::DefineGlobal { constant_index } => {
                17u8.encode(bytes);
                U8::from(constant_index).encode(bytes);
            },
            Op::DefineGlobalLong { constant_index } => {
                18u8.encode(bytes);
                U24::from(constant_index).encode(bytes);
            },
            Op::GetGlobal { constant_index } => {
                19u8.encode(bytes);
                U8::from(constant_index).encode(bytes);
            },
            Op::GetGlobalLong { constant_index } => {
                20u8.encode(bytes);
                U24::from(constant_index).encode(bytes);
            },
            Op::SetGlobal { constant_index } => {
                21u8.encode(bytes);
                U8::from(constant_index).encode(bytes);
            },
            Op::SetGlobalLong { constant_index } => {
                22u8.encode(bytes);
                U24::from(constant_index).encode(bytes);
            },
            Op::GetLocal { local_index } => {
                23u8.encode(bytes);
                U8::from(local_index).encode(bytes);
            },
            Op::GetLocalLong { local_index } => {
                24u8.encode(bytes);
                U24::from(local_index).encode(bytes);
            },
            Op::SetLocal { local_index } => {
                25u8.encode(bytes);
                U8::from(local_index).encode(bytes);
            },
            Op::SetLocalLong { local_index } => {
                26u8.encode(bytes);
                U24::from(local_index).encode(bytes);
            },
            Op::JumpIfFalse { distance } => {
                27u8.encode(bytes);
                U16::from(distance).encode(bytes);
            },
            Op::Jump { distance } => {
                28u8.encode(bytes);
                U16::from(distance).encode(bytes);
            },
            Op::Loop { distance } => {
                29u8.encode(bytes);
                U16::from(distance).encode(bytes);
            },
            Op::PushFrame => {
                30u8.encode(bytes);
            },
            Op::Call { arity } => {
                31u8.encode(bytes);
                U8::from(arity).encode(bytes);
            },
            Op::CloseFunction { function_index } => {
                32u8.encode(bytes);
                U8::from(function_index).encode(bytes);
            },
            Op::CloseFunctionLong { function_index } => {
                33u8.encode(bytes);
                U24::from(function_index).encode(bytes);
            },
            Op::CloseLocal => {
                34u8.encode(bytes);
            },
            Op::GetUpvalue { upvalue_index } => {
                35u8.encode(bytes);
                U8::from(upvalue_index).encode(bytes);
            },
            Op::GetUpvalueLong { upvalue_index } => {
                36u8.encode(bytes);
                U24::from(upvalue_index).encode(bytes);
            },
            Op::SetUpvalue { upvalue_index } => {
                37u8.encode(bytes);
                U8::from(upvalue_index).encode(bytes);
            },
            Op::SetUpvalueLong { upvalue_index } => {
                38u8.encode(bytes);
                U24::from(upvalue_index).encode(bytes);
            },
            Op::Class { class_index } => {
                39u8.encode(bytes);
                U8::from(class_index).encode(bytes);
            },
            Op::ClassLong { class_index } => {
                40u8.encode(bytes);
                U24::from(class_index).encode(bytes);
            },
            Op::GetField { constant_index } => {
                41u8.encode(bytes);
                U8::from(constant_index).encode(bytes);
            },
            Op::GetFieldLong { constant_index } => {
                42u8.encode(bytes);
                U24::from(constant_index).encode(bytes);
            },
            Op::SetField { constant_index } => {
                43u8.encode(bytes);
                U8::from(constant_index).encode(bytes);
            },
            Op::SetFieldLong { constant_index } => {
                44u8.encode(bytes);
                U24::from(constant_index).encode(bytes);
            },
            Op::Invoke { constant_index, arity } => {
                45u8.encode(bytes);
                U8::from(constant_index).encode(bytes);
                U8::from(arity).encode(bytes);
            },
            Op::InvokeLong { constant_index, arity } => {
                46u8.encode(bytes);
                U24::from(constant_index).encode(bytes);
                U8::from(arity).encode(bytes);
            },
        }
        proof {
            assert(bytes@ =~= start + op_encoding(self));
        }
    }

    fn decode(bytes: &[u8], offset: &mut usize) -> (r: Result<Op, DecodeError>) {
        proof {
            reveal_with_fuel(decode_le, 4);
        }
        let byte = u8::decode(bytes, offset)?;
        match byte {
            0 => Ok(Op::Return),
            1 => Ok(Op::Nil),
            2 => Ok(Op::True),
            3 => Ok(Op::False),
            4 => {
                let constant_index = usize::from(U8::decode(bytes, offset)?);
                Ok(Op::Constant { constant_index })
            },
            5 => {
                let constant_index = usize::from(U24::decode(bytes, offset)?);
                Ok(Op::ConstantLong { constant_index })
            },
            6 => Ok(Op::Not),
            7 => Ok(Op::Negate),
            8 => Ok(Op::Add),
            9 => Ok(Op::Subtract),
            10 => Ok(Op::Multiply),
            11 => Ok(Op::Divide),
            12 => Ok(Op::Equal),
            13 => Ok(Op::Greater),
            14 => Ok(Op::Less),
            15 => Ok(Op::Print),
            16 => Ok(Op::Pop),
            17 => {
                let constant_index = usize::from(U8::decode(bytes, offset)?);
                Ok(Op::DefineGlobal { constant_index })
            },
            18 => {
                let constant_index = usize::from(U24::decode(bytes, offset)?);
                Ok(Op::DefineGlobalLong { constant_index })
            },
            19 => {
                let constant_index = usize::from(U8::decode(bytes, offset)?);
                Ok(Op::GetGlobal { constant_index })
            },
            20 => {
                let constant_index = usize::from(U24::decode(bytes, offset)?);
                Ok(Op::GetGlobalLong { constant_index })
            },
            21 => {
                let constant_index = usize::from(U8::decode(bytes, offset)?);
                Ok(Op::SetGlobal { constant_index })
            },
            22 => {
                let constant_index = usize::from(U24::decode(bytes, offset)?);
                Ok(Op::SetGlobalLong { constant_index })
            },
            23 => {
                let local_index = usize::from(U8::decode(bytes, offset)?);
                Ok(Op::GetLocal { local_index })
            },
            24 => {
                let local_index = usize::from(U24::decode(bytes, offset)?);
                Ok(Op::GetLocalLong { local_index })
            },
            25 => {
                let local_index = usize::from(U8::decode(bytes, offset)?);
                Ok(Op::SetLocal { local_index })
            },
            26 => {
                let local_index = usize::from(U24::decode(bytes, offset)?);
                Ok(Op::SetLocalLong { local_index })
            },
            27 => {
                let distance = usize::from(U16::decode(bytes, offset)?);
                Ok(Op::JumpIfFalse { distance })
            },
            28 => {
                let distance = usize::from(U16::decode(bytes, offset)?);
                Ok(Op::Jump { distance })
            },
            29 => {
                let distance = usize::from(U16::decode(bytes, offset)?);
                Ok(Op::Loop { distance })
            },
            30 => Ok(Op::PushFrame),
            31 => {
                let arity = usize::from(U8::decode(bytes, offset)?);
                Ok(Op::Call { arity })
            },
            32 => {
                let function_index = usize::from(U8::decode(bytes, offset)?);
                Ok(Op::CloseFunction { function_index })
            },
            33 => {
                let function_index = usize::from(U24::decode(bytes, offset)?);
                Ok(Op::CloseFunctionLong { function_index })
            },
            34 => Ok(Op::CloseLocal),
            35 => {
                let upvalue_index = usize::from(U8::decode(bytes, offset)?);
                Ok(Op::GetUpvalue { upvalue_index })
            },
            36 => {
                let upvalue_index = usize::from(U24::decode(bytes, offset)?);
                Ok(Op::GetUpvalueLong { upvalue_index })
            },
            37 => {
                let upvalue_index = usize::from(U8::decode(bytes, offset)?);
                Ok(Op::SetUpvalue { upvalue_index })
            },
            38 => {
                let upvalue_index = usize::from(U24::decode(bytes, offset)?);
                Ok(Op::SetUpvalueLong { upvalue_index })
            },
            39 => {
                let class_index = usize::from(U8::decode(bytes, offset)?);
                Ok(Op::Class { class_index })
            },
            40 => {
                let class_index = usize::from(U24::decode(bytes, offset)?);
                Ok(Op::ClassLong { class_index })
            },
            41 => {
                let constant_index = usize::from(U8::decode(bytes, offset)?);
                Ok(Op::GetField { constant_index })
            },
            42 => {
                let constant_index = usize::from(U24::decode(bytes, offset)?);
                Ok(Op::GetFieldLong { constant_index })
            },
            43 => {
                let constant_index = usize::from(U8::decode(bytes, offset)?);
                Ok(Op::SetField { constant_index })
            },
            44 => {
                let constant_index = usize::from(U24::decode(bytes, offset)?);
                Ok(Op::SetFieldLong { constant_index })
            },
            45 => {
                let constant_index = usize::from(U8::decode(bytes, offset)?);
                let arity = usize::from(U8::decode(bytes, offset)?);
                Ok(Op::Invoke { constant_index, arity })
            },
            46 => {
                let constant_index = usize::from(U24::decode(bytes, offset)?);
                let arity = usize::from(U8::decode(bytes, offset)?);
                Ok(Op::InvokeLong { constant_index, arity })
            },
            _ => Err(DecodeError::InvalidOpcode { byte }),
        }
    }
}

/// Decoding an instruction where its encoding starts gives the
/// instruction back and moves past exactly its encoding, whatever surrounds
/// it, when its operands fit their widths.
#[verifier::spinoff_prover]
#[verifier::rlimit(60)]
pub proof fn lemma_op_roundtrip(op: Op, prefix: Seq<u8>, suffix: Seq<u8>)
    requires
        operands_fit(op),
    ensures
        op_decode(prefix + op_encoding(op) + suffix, prefix.len() as int) == (
            Ok::<Op, DecodeError>(op),
            (prefix.len() + op_encoding(op).len()) as int,
        ),
{
    let bytes = prefix + op_encoding(op) + suffix;
    let p1 = prefix.push(opcode(op));
    assert(bytes[prefix.len() as int] == opcode(op));
    match op {
        Op::Return => {
            assert(op_encoding(op) =~= seq![0u8]);
        },
        Op::Nil => {
            assert(op_encoding(op) =~= seq![1u8]);
        },
        Op::True => {
            assert(op_encoding(op) =~= seq![2u8]);
        },
        Op::False => {
            assert(op_encoding(op) =~= seq![3u8]);
        },
        Op::Constant { constant_index } => {
            assert(bytes =~= p1 + le_bytes(constant_index as int, 1) + suffix);
            lemma_le_roundtrip(constant_index as int, 1, p1, suffix);
        },
        Op::ConstantLong { constant_index } => {
            assert(bytes =~= p1 + le_bytes(constant_index as int, 3) + suffix);
            lemma_le_roundtrip(constant_index as int, 3, p1, suffix);
        },
        Op::Not => {
            assert(op_encoding(op) =~= seq![6u8]);
        },
        Op::Negate => {
            assert(op_encoding(op) =~= seq![7u8]);
        },
        Op::Add => {
            assert(op_encoding(op) =~= seq![8u8]);
        },
        Op::Subtract => {
            assert(op_encoding(op) =~= seq![9u8]);
        },
        Op::Multiply => {
            assert(op_encoding(op) =~= seq![10u8]);
        },
        Op::Divide => {
            assert(op_encoding(op) =~= seq![11u8]);
        },
        Op::Equal => {
            assert(op_encoding(op) =~= seq![12u8]);
        },
        Op::Greater => {
            assert(op_encoding(op) =~= seq![13u8]);
        },
        Op::Less => {
            assert(op_encoding(op) =~= seq![14u8]);
        },
        Op::Print => {
            assert(op_encoding(op) =~= seq![15u8]);
        },
        Op::Pop => {
            assert(op_encoding(op) =~= seq![16u8]);
        },
        Op::DefineGlobal { constant_index } => {
            assert(bytes =~= p1 + le_bytes(constant_index as int, 1) + suffix);
            lemma_le_roundtrip(constant_index as int, 1, p1, suffix);
        },
        Op::DefineGlobalLong { constant_index } => {
            assert(bytes =~= p1 + le_bytes(constant_index as int, 3) + suffix);
            lemma_le_roundtrip(constant_index as int, 3, p1, suffix);
        },
        Op::GetGlobal { constant_index } => {
            assert(bytes =~= p1 + le_bytes(constant_index as int, 1) + suffix);
            lemma_le_roundtrip(constant_index as int, 1, p1, suffix);
        },
        Op::GetGlobalLong { constant_index } => {
            assert(bytes =~= p1 + le_bytes(constant_index as int, 3) + suffix);
            lemma_le_roundtrip(constant_index as int, 3, p1, suffix);
        },
        Op::SetGlobal { constant_index } => {
            assert(bytes =~= p1 + le_bytes(constant_index as int, 1) + suffix);
            lemma_le_roundtrip(constant_index as int, 1, p1, suffix);
        },
        Op::SetGlobalLong { constant_index } => {
            assert(bytes =~= p1 + le_bytes(constant_index as int, 3) + suffix);
            lemma_le_roundtrip(constant_index as int, 3, p1, suffix);
        },
        Op::GetLocal { local_index } => {
            assert(bytes =~= p1 + le_bytes(local_index as int, 1) + suffix);
            lemma_le_roundtrip(local_index as int, 1, p1, suffix);
        },
        Op::GetLocalLong { local_index } => {
            assert(bytes =~= p1 + le_bytes(local_index as int, 3) + suffix);
            lemma_le_roundtrip(local_index as int, 3, p1, suffix);
        },
        Op::SetLocal { local_index } => {
            assert(bytes =~= p1 + le_bytes(local_index as int, 1) + suffix);
            lemma_le_roundtrip(local_index as int, 1, p1, suffix);
        },
        Op::SetLocalLong { local_index } => {
            assert(bytes =~= p1 + le_bytes(local_index as int, 3) + suffix);
            lemma_le_roundtrip(local_index as int, 3, p1, suffix);
        },
        Op::JumpIfFalse { distance } => {
            assert(bytes =~= p1 + le_bytes(distance as int, 2) + suffix);
            lemma_le_roundtrip(distance as int, 2, p1, suffix);
        },
        Op::Jump { distance } => {
            assert(bytes =~= p1 + le_bytes(distance as int, 2) + suffix);
            lemma_le_roundtrip(distance as int, 2, p1, suffix);
        },
        Op::Loop { distance } => {
            assert(bytes =~= p1 + le_bytes(distance as int, 2) + suffix);
            lemma_le_roundtrip(distance as int, 2, p1, suffix);
        },
        Op::PushFrame => {
            assert(op_encoding(op) =~= seq![30u8]);
        },
        Op::Call { arity } => {
            assert(bytes =~= p1 + le_bytes(arity as int, 1) + suffix);
            lemma_le_roundtrip(arity as int, 1, p1, suffix);
        },
        Op::CloseFunction { function_index } => {
            assert(bytes =~= p1 + le_bytes(function_index as int, 1) + suffix);
            lemma_le_roundtrip(function_index as int, 1, p1, suffix);
        },
        Op::CloseFunctionLong { function_index } => {
            assert(bytes =~= p1 + le_bytes(function_index as int, 3) + suffix);
            lemma_le_roundtrip(function_index as int, 3, p1, suffix);
        },
        Op::CloseLocal => {
            assert(op_encoding(op) =~= seq![34u8]);
        },
        Op::GetUpvalue { upvalue_index } => {
            assert(bytes =~= p1 + le_bytes(upvalue_index as int, 1) + suffix);
            lemma_le_roundtrip(upvalue_index as int, 1, p1, suffix);
        },
        Op::GetUpvalueLong { upvalue_index } => {
            assert(bytes =~= p1 + le_bytes(upvalue_index as int, 3) + suffix);
            lemma_le_roundtrip(upvalue_index as int, 3, p1, suffix);
        },
        Op::SetUpvalue { upvalue_index } => {
            assert(bytes =~= p1 + le_bytes(upvalue_index as int, 1) + suffix);
            lemma_le_roundtrip(upvalue_index as int, 1, p1, suffix);
        },
        Op::SetUpvalueLong { upvalue_index } => {
            assert(bytes =~= p1 + le_bytes(upvalue_index as int, 3) + suffix);
            lemma_le_roundtrip(upvalue_index as int, 3, p1, suffix);
        },
        Op::Class { class_index } => {
            assert(bytes =~= p1 + le_bytes(class_index as int, 1) + suffix);
            lemma_le_roundtrip(class_index as int, 1, p1, suffix);
        },
        Op::ClassLong { class_index } => {
            assert(bytes =~= p1 + le_bytes(class_index as int, 3) + suffix);
            lemma_le_roundtrip(class_index as int, 3, p1, suffix);
        },
        Op::GetField { constant_index } => {
            assert(bytes =~= p1 + le_bytes(constant_index as int, 1) + suffix);
            lemma_le_roundtrip(constant_index as int, 1, p1, suffix);
        },
        Op::GetFieldLong { constant_index } => {
            assert(bytes =~= p1 + le_bytes(constant_index as int, 3) + suffix);
            lemma_le_roundtrip(constant_index as int, 3, p1, suffix);
        },
        Op::SetField { constant_index } => {
            assert(bytes =~= p1 + le_bytes(constant_index as int, 1) + suffix);
            lemma_le_roundtrip(constant_index as int, 1, p1, suffix);
        },
        Op::SetFieldLong { constant_index } => {
            assert(bytes =~= p1 + le_bytes(constant_index as int, 3) + suffix);
            lemma_le_roundtrip(constant_index as int, 3, p1, suffix);
        },
        Op::Invoke { constant_index, arity } => {
            let p2 = p1 + le_bytes(constant_index as int, 1);
            assert(bytes =~= p1 + le_bytes(constant_index as int, 1) + (le_bytes(arity as int, 1) + suffix));
            lemma_le_roundtrip(constant_index as int, 1, p1, le_bytes(arity as int, 1) + suffix);
            assert(bytes =~= p2 + le_bytes(arity as int, 1) + suffix);
            lemma_le_roundtrip(arity as int, 1, p2, suffix);
        },
        Op::InvokeLong { constant_index, arity } => {
            let p2 = p1 + le_bytes(constant_index as int, 3);
            assert(bytes =~= p1 + le_bytes(constant_index as int, 3) + (le_bytes(arity as int, 1) + suffix));
            lemma_le_roundtrip(constant_index as int, 3, p1, le_bytes(arity as int, 1) + suffix);
            assert(bytes =~= p2 + le_bytes(arity as int, 1) + suffix);
            lemma_le_roundtrip(arity as int, 1, p2, suffix);
        },
    }
}

impl Op {
    /// The short form of the instruction when its operand fits in one byte,
    /// else the long form; the operand must fit in three bytes.
    pub fn constant(constant_index: usize) -> (r: Op)
        requires
            constant_index <= U24::MAX,
        ensures
            r == if constant_index <= U8::MAX {
                Op::Constant { constant_index }
            } else {
                Op::ConstantLong { constant_index }
            },
    {
        if constant_index <= U8::MAX {
            Op::Constant { constant_index }
        } else {
            Op::ConstantLong { constant_index }
        }
    }

    /// The short form of the instruction when its operand fits in one byte,
    /// else the long form; the operand must fit in three bytes.
    pub fn define_global(constant_index: usize) -> (r: Op)
        requires
            constant_index <= U24::MAX,
        ensures
            r == if constant_index <= U8::MAX {
                Op::DefineGlobal { constant_index }
            } else {
                Op::DefineGlobalLong { constant_index }
            },
    {
        if constant_index <= U8::MAX {
            Op::DefineGlobal { constant_index }
        } else {
            Op::DefineGlobalLong { constant_index }
        }
    }

    /// The short form of the instruction when its operand fits in one byte,
    /// else the long form; the operand must fit in three bytes.
    pub fn get_global(constant_index: usize) -> (r: Op)
        requires
            constant_index <= U24::MAX,
        ensures
            r == if constant_index <= U8::MAX {
                Op::GetGlobal { constant_index }
            } else {
                Op::GetGlobalLong { constant_index }
            },
    {
        if constant_index <= U8::MAX {
            Op::GetGlobal { constant_index }
        } else {
            Op::GetGlobalLong { constant_index }
        }
    }

    /// The short form of the instruction when its operand fits in one byte,
    /// else the long form; the operand must fit in three bytes.
    pub fn set_global(constant_index: usize) -> (r: Op)
        requires
            constant_index <= U24::MAX,
        ensures
            r == if constant_index <= U8::MAX {
                Op::SetGlobal { constant_index }
            } else {
                Op::SetGlobalLong { constant_index }
            },
    {
        if constant_index <= U8::MAX {
            Op::SetGlobal { constant_index }
        } else {
            Op::SetGlobalLong { constant_index }
        }
    }

    /// The short form of the instruction when its operand fits in one byte,
    /// else the long form; the operand must fit in three bytes.
    pub fn get_local(local_index: usize) -> (r: Op)
        requires
            local_index <= U24::MAX,
        ensures
            r == if local_index <= U8::MAX {
                Op::GetLocal { local_index }
            } else {
                Op::GetLocalLong { local_index }
            },
    {
        if local_index <= U8::MAX {
            Op::GetLocal { local_index }
        } else {
            Op::GetLocalLong { local_index }
        }
    }

    /// The short form of the instruction when its operand fits in one byte,
    /// else the long form; the operand must fit in three bytes.
    pub fn set_local(local_index: usize) -> (r: Op)
        requires
            local_index <= U24::MAX,
        ensures
            r == if local_index <= U8::MAX {
                Op::SetLocal { local_index }
            } else {
                Op::SetLocalLong { local_index }
            },
    {
        if local_index <= U8::MAX {
            Op::SetLocal { local_index }
        } else {
            Op::SetLocalLong { local_index }
        }
    }

    /// The short form of the instruction when its operand fits in one byte,
    /// else the long form; the operand must fit in three bytes.
    pub fn close_function(function_index: usize) -> (r: Op)
        requires
            function_index <= U24::MAX,
        ensures
            r == if function_index <= U8::MAX {
                Op::CloseFunction { function_index }
            } else {
                Op::CloseFunctionLong { function_index }
            },
    {
        if function_index <= U8::MAX {
            Op::CloseFunction { function_index }
        } else {
            Op::CloseFunctionLong { function_index }
        }
    }

    /// The short form of the instruction when its operand fits in one byte,
    /// else the long form; the operand must fit in three bytes.
    pub fn get_upvalue(upvalue_index: usize) -> (r: Op)
        requires
            upvalue_index <= U24::MAX,
        ensures
            r == if upvalue_index <= U8::MAX {
                Op::GetUpvalue { upvalue_index }
            } else {
                Op::GetUpvalueLong { upvalue_index }
            },
    {
        if upvalue_index <= U8::MAX {
            Op::GetUpvalue { upvalue_index }
        } else {
            Op::GetUpvalueLong { upvalue_index }
        }
    }

    /// The short form of the instruction when its operand fits in one byte,
    /// else the long form; the operand must fit in three bytes.
    pub fn set_upvalue(upvalue_index: usize) -> (r: Op)
        requires
            upvalue_index <= U24::MAX,
        ensures
            r == if upvalue_index <= U8::MAX {
                Op::SetUpvalue { upvalue_index }
            } else {
                Op::SetUpvalueLong { upvalue_index }
            },
    {
        if upvalue_index <= U8::MAX {
            Op::SetUpvalue { upvalue_index }
        } else {
            Op::SetUpvalueLong { upvalue_index }
        }
    }

    /// The short form of the instruction when its operand fits in one byte,
    /// else the long form; the operand must fit in three bytes.
    pub fn class(class_index: usize) -> (r: Op)
        requires
            class_index <= U24::MAX,
        ensures
            r == if class_index <= U8::MAX {
                Op::Class { class_index }
            } else {
                Op::ClassLong { class_index }
            },
    {
        if class_index <= U8::MAX {
            Op::Class { class_index }
        } else {
            Op::ClassLong { class_index }
        }
    }

    /// The short form of the instruction when its operand fits in one byte,
    /// else the long form; the operand must fit in three bytes.
    pub fn get_field(constant_index: usize) -> (r: Op)
        requires
            constant_index <= U24::MAX,
        ensures
            r == if constant_index <= U8::MAX {
                Op::GetField { constant_index }
            } else {
                Op::GetFieldLong { constant_index }
            },
    {
        if constant_index <= U8::MAX {
            Op::GetField { constant_index }
        } else {
            Op::GetFieldLong { constant_index }
        }
    }

    /// The short form of the instruction when its operand fits in one byte,
    /// else the long form; the operand must fit in three bytes.
    pub fn set_field(constant_index: usize) -> (r: Op)
        requires
            constant_index <= U24::MAX,
        ensures
            r == if constant_index <= U8::MAX {
                Op::SetField { constant_index }
            } else {
                Op::SetFieldLong { constant_index }
            },
    {
        if constant_index <= U8::MAX {
            Op::SetField { constant_index }
        } else {
            Op::SetFieldLong { constant_index }
        }
    }

    /// The short form of the instruction when its operand fits in one byte,
    /// else the long form; the operand must fit in three bytes.
    pub fn invoke(constant_index: usize, arity: usize) -> (r: Op)
        requires
            constant_index <= U24::MAX,
        ensures
            r == if constant_index <= U8::MAX {
                Op::Invoke { constant_index, arity }
            } else {
                Op::InvokeLong { constant_index, arity }
            },
    {
        if constant_index <= U8::MAX {
            Op::Invoke { constant_index, arity }
        } else {
            Op::InvokeLong { constant_index, arity }
        }
    }

}

} // verus!
