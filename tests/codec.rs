use lox_chunk::opcode::{DecodeError, OpCode, OPCODE_COUNT};

#[test]
fn round_trip_every_tag() {
    for op in [OpCode::Constant, OpCode::Return] {
        assert_eq!(OpCode::decode(op.encode()), Ok(op));
        let b: u8 = op.into();
        assert_eq!(OpCode::try_from(b), Ok(op));
    }
}

#[test]
fn encoding_is_dense_from_zero() {
    assert_eq!(OpCode::Constant.encode(), 0);
    assert_eq!(OpCode::Return.encode(), 1);
    assert_eq!(u8::from(OpCode::Return), 1);
}

#[test]
fn decode_fails_exactly_outside_tag_range() {
    for b in 0..=255u8 {
        let r = OpCode::decode(b);
        if b < OPCODE_COUNT {
            assert!(r.is_ok());
        } else {
            assert_eq!(r, Err(DecodeError::UnknownOpcode(b)));
        }
    }
    assert_eq!(OpCode::decode(0), Ok(OpCode::Constant));
    assert_eq!(OpCode::decode(1), Ok(OpCode::Return));
    assert_eq!(OpCode::try_from(2u8), Err(DecodeError::UnknownOpcode(2)));
}

#[test]
fn mnemonics() {
    assert_eq!(OpCode::Constant.mnemonic(), "OP_CONSTANT");
    assert_eq!(OpCode::Return.mnemonic(), "OP_RETURN");
}
