//! Instruction opcodes.
use vstd::prelude::*;

verus! {

/// The closed set of instruction opcodes, each with a stable byte value on
/// the wire: `NoOp` is 0, `Return` is 1, and the rest follow in order.
#[derive(Debug, Clone, Copy, PartialEq, Eq, Structural)]
pub enum OpCode {
    /// Only used by the VM to advance the instruction pointer.
    NoOp,
    /// Return from a function.
    Return,
    /// Load a constant value from a chunk.
    /// Followed by one byte containing an index into the constant pool.
    Constant,
    /// Load a constant value from a chunk.
    /// Followed by three bytes (big-endian, 24 bits) containing an index
    /// into the constant pool.
    ConstantLong,
    /// Arithmetic unary negation: replaces the stack top with its negation.
    Negate,
    Add,
    Subtract,
    Multiply,
    Divide,
}

impl OpCode {
    /// The byte value this opcode has in a bytecode stream.
    pub open spec fn spec_to_u8(self) -> u8 {
        match self {
            OpCode::NoOp => 0,
            OpCode::Return => 1,
            OpCode::Constant => 2,
            OpCode::ConstantLong => 3,
            OpCode::Negate => 4,
            OpCode::Add => 5,
            OpCode::Subtract => 6,
            OpCode::Multiply => 7,
            OpCode::Divide => 8,
        }
    }

    /// The opcode denoted by a byte, if the byte is a known opcode.
    pub open spec fn spec_from_u8(value: u8) -> Option<OpCode> {
        if value == 0 {
            Some(OpCode::NoOp)
        } else if value == 1 {
            Some(OpCode::Return)
        } else if value == 2 {
            Some(OpCode::Constant)
        } else if value == 3 {
            Some(OpCode::ConstantLong)
        } else if value == 4 {
            Some(OpCode::Negate)
        } else if value == 5 {
            Some(OpCode::Add)
        } else if value == 6 {
            Some(OpCode::Subtract)
        } else if value == 7 {
            Some(OpCode::Multiply)
        } else if value == 8 {
            Some(OpCode::Divide)
        } else {
            None
        }
    }

    /// Total width in bytes of an instruction beginning with this opcode:
    /// the opcode byte itself plus its immediate operand bytes.
    pub open spec fn width(self) -> nat {
        match self {
            OpCode::Constant => 2,
            OpCode::ConstantLong => 4,
            _ => 1,
        }
    }

    pub fn to_u8(self) -> (value: u8)
        ensures
            value == self.spec_to_u8(),
    {
        match self {
            OpCode::NoOp => 0,
            OpCode::Return => 1,
            OpCode::Constant => 2,
            OpCode::ConstantLong => 3,
            OpCode::Negate => 4,
            OpCode::Add => 5,
            OpCode::Subtract => 6,
            OpCode::Multiply => 7,
            OpCode::Divide => 8,
        }
    }

    pub fn from_u8(value: u8) -> (op: Option<OpCode>)
        ensures
            op == OpCode::spec_from_u8(value),
    {
        if value == 0 {
            Some(OpCode::NoOp)
        } else if value == 1 {
            Some(OpCode::Return)
        } else if value == 2 {
            Some(OpCode::Constant)
        } else if value == 3 {
            Some(OpCode::ConstantLong)
        } else if value == 4 {
            Some(OpCode::Negate)
        } else if value == 5 {
            Some(OpCode::Add)
        } else if value == 6 {
            Some(OpCode::Subtract)
        } else if value == 7 {
            Some(OpCode::Multiply)
        } else if value == 8 {
            Some(OpCode::Divide)
        } else {
            None
        }
    }
}

/// Decoding inverts encoding: the byte an opcode is written as decodes back
/// to that same opcode.
pub proof fn lemma_opcode_round_trip(op: OpCode)
    ensures
        OpCode::spec_from_u8(op.spec_to_u8()) == Some(op),
{
}

} // verus!
