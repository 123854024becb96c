//! The closed set of instruction tags and their one-byte wire form.

use vstd::prelude::*;

verus! {

/// An instruction kind. Tags are encoded densely from zero in declaration order.
#[derive(Clone, Copy, Debug, PartialEq, Eq, Structural)]
pub enum OpCode {
    /// Loads a constant; one operand byte holds the constant's index.
    Constant,
    /// Returns; no operands.
    Return,
}

/// Why a byte could not be decoded as an opcode.
#[derive(Clone, Copy, Debug, PartialEq, Eq, Structural)]
pub enum DecodeError {
    /// The byte does not correspond to any declared tag.
    UnknownOpcode(u8),
}

/// Number of declared tags; the valid encodings are `0..OPCODE_COUNT`.
pub const OPCODE_COUNT: u8 = 2;

impl OpCode {
    /// The wire byte of a tag.
    pub open spec fn spec_encode(self) -> u8 {
        match self {
            OpCode::Constant => 0,
            OpCode::Return => 1,
        }
    }

    /// The tag a byte stands for, if any.
    pub open spec fn spec_decode(b: u8) -> Option<OpCode> {
        if b == 0 {
            Some(OpCode::Constant)
        } else if b == 1 {
            Some(OpCode::Return)
        } else {
            None
        }
    }

    /// Number of operand bytes that follow the opcode byte.
    pub open spec fn operand_count(self) -> nat {
        match self {
            OpCode::Constant => 1,
            OpCode::Return => 0,
        }
    }

    /// The mnemonic used in listings.
    pub open spec fn spec_mnemonic(self) -> Seq<char> {
        match self {
            OpCode::Constant => "OP_CONSTANT"@,
            OpCode::Return => "OP_RETURN"@,
        }
    }

    pub fn encode(self) -> (r: u8)
        ensures
            r == self.spec_encode(),
    {
        match self {
            OpCode::Constant => 0,
            OpCode::Return => 1,
        }
    }

    pub fn decode(b: u8) -> (r: Result<OpCode, DecodeError>)
        ensures
            match OpCode::spec_decode(b) {
                Some(op) => r == Ok::<OpCode, DecodeError>(op),
                None => r == Err::<OpCode, DecodeError>(DecodeError::UnknownOpcode(b)),
            },
    {
        match b {
            0 => Ok(OpCode::Constant),
            1 => Ok(OpCode::Return),
            _ => Err(DecodeError::UnknownOpcode(b)),
        }
    }

    pub fn mnemonic(self) -> (r: &'static str)
        ensures
            r@ == self.spec_mnemonic(),
    {
        match self {
            OpCode::Constant => "OP_CONSTANT",
            OpCode::Return => "OP_RETURN",
        }
    }
}

/// Decoding the encoding of any tag gives the tag back.
pub proof fn lemma_round_trip(op: OpCode)
    ensures
        OpCode::spec_decode(op.spec_encode()) == Some(op),
{
}

/// Decoding succeeds exactly on the bytes below the number of tags, and a
/// byte that decodes is the encoding of what it decodes to.
pub proof fn lemma_decode_total(b: u8)
    ensures
        OpCode::spec_decode(b) is Some <==> b < OPCODE_COUNT,
        OpCode::spec_decode(b) matches Some(op) ==> op.spec_encode() == b,
{
}

impl From<OpCode> for u8 {
    fn from(op: OpCode) -> (r: u8) {
        op.encode()
    }
}

impl vstd::std_specs::convert::FromSpecImpl<OpCode> for u8 {
    open spec fn obeys_from_spec() -> bool {
        true
    }

    open spec fn from_spec(op: OpCode) -> u8 {
        op.spec_encode()
    }
}

impl TryFrom<u8> for OpCode {
    type Error = DecodeError;

    fn try_from(b: u8) -> (r: Result<OpCode, DecodeError>) {
        OpCode::decode(b)
    }
}

impl vstd::std_specs::convert::TryFromSpecImpl<u8> for OpCode {
    open spec fn obeys_try_from_spec() -> bool {
        true
    }

    open spec fn try_from_spec(b: u8) -> Result<OpCode, DecodeError> {
        match OpCode::spec_decode(b) {
            Some(op) => Ok(op),
            None => Err(DecodeError::UnknownOpcode(b)),
        }
    }
}

} // verus!
