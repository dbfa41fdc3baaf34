use rox::codec::{Codec, DecodeError, U16, U24, U8};
use rox::op::Op;

#[test]
fn u8_roundtrip() {
    let mut bytes = Vec::new();
    U8(200).encode(&mut bytes);
    assert_eq!(bytes, vec![200]);
    let mut offset = 0;
    assert_eq!(U8::decode(&bytes, &mut offset).unwrap().0, 200);
    assert_eq!(offset, 1);
}

#[test]
fn u8_from_usize_keeps_low_byte() {
    assert_eq!(U8::from(0x1ff_usize).0, 0xff);
    assert_eq!(usize::from(U8(7)), 7);
}

#[test]
fn u16_is_little_endian() {
    let mut bytes = Vec::new();
    U16(0x1234).encode(&mut bytes);
    assert_eq!(bytes, vec![0x34, 0x12]);
    let mut offset = 0;
    assert_eq!(U16::decode(&bytes, &mut offset).unwrap().0, 0x1234);
    assert_eq!(offset, 2);
}

#[test]
fn u24_roundtrip_and_truncation() {
    let mut bytes = Vec::new();
    U24::from(0x0123_4567_usize).encode(&mut bytes);
    assert_eq!(bytes, vec![0x67, 0x45, 0x23]);
    let mut offset = 0;
    assert_eq!(U24::decode(&bytes, &mut offset).unwrap().0, 0x23_4567);
    assert_eq!(offset, 3);
}

#[test]
fn decode_past_the_end_fails() {
    let bytes = vec![0x01];
    let mut offset = 0;
    assert!(matches!(
        U16::decode(&bytes, &mut offset),
        Err(DecodeError::InsufficientBytes)
    ));
    let mut offset = 1;
    assert!(matches!(
        U8::decode(&bytes, &mut offset),
        Err(DecodeError::InsufficientBytes)
    ));
    assert_eq!(offset, 1);
}

#[test]
fn op_encodings() {
    let mut bytes = Vec::new();
    Op::Constant { constant_index: 5 }.encode(&mut bytes);
    Op::Return.encode(&mut bytes);
    Op::InvokeLong { constant_index: 0x010203, arity: 2 }.encode(&mut bytes);
    Op::Jump { distance: 0x0102 }.encode(&mut bytes);
    assert_eq!(bytes, vec![4, 5, 0, 46, 3, 2, 1, 2, 28, 2, 1]);
}

#[test]
fn op_roundtrip() {
    let ops = vec![
        Op::Nil,
        Op::GetLocal { local_index: 3 },
        Op::SetGlobalLong { constant_index: 70000 },
        Op::Call { arity: 4 },
        Op::Invoke { constant_index: 9, arity: 1 },
        Op::Loop { distance: 515 },
    ];
    let mut bytes = Vec::new();
    for op in ops {
        op.encode(&mut bytes);
    }
    let mut offset = 0;
    assert_eq!(Op::decode(&bytes, &mut offset).unwrap(), Op::Nil);
    assert_eq!(Op::decode(&bytes, &mut offset).unwrap(), Op::GetLocal { local_index: 3 });
    assert_eq!(
        Op::decode(&bytes, &mut offset).unwrap(),
        Op::SetGlobalLong { constant_index: 70000 }
    );
    assert_eq!(Op::decode(&bytes, &mut offset).unwrap(), Op::Call { arity: 4 });
    assert_eq!(
        Op::decode(&bytes, &mut offset).unwrap(),
        Op::Invoke { constant_index: 9, arity: 1 }
    );
    assert_eq!(Op::decode(&bytes, &mut offset).unwrap(), Op::Loop { distance: 515 });
    assert_eq!(offset, bytes.len());
}

#[test]
fn op_invalid_opcode() {
    let bytes = vec![200];
    let mut offset = 0;
    assert!(matches!(
        Op::decode(&bytes, &mut offset),
        Err(DecodeError::InvalidOpcode { byte: 200 })
    ));
}

#[test]
fn op_short_and_long_forms() {
    assert_eq!(Op::constant(255), Op::Constant { constant_index: 255 });
    assert_eq!(Op::constant(256), Op::ConstantLong { constant_index: 256 });
    assert_eq!(Op::get_local(3), Op::GetLocal { local_index: 3 });
    assert_eq!(Op::set_upvalue(1000), Op::SetUpvalueLong { upvalue_index: 1000 });
    assert_eq!(
        Op::invoke(300, 2),
        Op::InvokeLong { constant_index: 300, arity: 2 }
    );
}

#[test]
fn decode_errors_read_as_messages() {
    assert_eq!(DecodeError::InsufficientBytes.text(), b"insufficient bytes".to_vec());
    assert_eq!(DecodeError::InvalidOpcode { byte: 0xab }.text(), b"unknown opcode   ab".to_vec());
    assert_eq!(DecodeError::InvalidOpcode { byte: 5 }.text(), b"unknown opcode    5".to_vec());
}
