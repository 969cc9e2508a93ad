//! Chunks of bytecode.

use vstd::prelude::*;

verus! {

/// An error raised while building a chunk.
#[derive(Debug)]
pub struct BytecodeError {
    string: String,
}

impl BytecodeError {
    /// The description of the error.
    pub closed spec fn spec_message(&self) -> Seq<char> {
        self.string@
    }

    /// The description of the error.
    pub fn message(&self) -> (r: &str)
        ensures
            r@ == self.spec_message(),
    {
        self.string.as_str()
    }
}

/// The message of a byte that encodes no opcode.
pub open spec fn invalid_byte_message() -> Seq<char> {
    "invalid byte provided"@
}

/// An instruction of the bytecode.
#[derive(Debug, Clone, Copy, PartialEq, Eq)]
pub enum OpCode {
    Return,
}

impl OpCode {
    /// The opcode that `value` encodes, if any: `0` is `Return`.
    pub open spec fn spec_from_byte(value: u8) -> Option<OpCode> {
        if value == 0 {
            Some(OpCode::Return)
        } else {
            None
        }
    }

    /// The opcode that `value` encodes; an error for any byte but `0`.
    pub fn try_from(value: u8) -> (r: Result<OpCode, BytecodeError>)
        ensures
            match r {
                Ok(op) => Self::spec_from_byte(value) == Some(op),
                Err(e) => Self::spec_from_byte(value) is None && e.spec_message()
                    == invalid_byte_message(),
            },
    {
        match value {
            0 => Ok(OpCode::Return),
            _ => Err(BytecodeError { string: String::from_str("invalid byte provided") }),
        }
    }
}

/// A sequence of instructions.
pub struct Chunk {
    pub code: Vec<OpCode>,
}

impl Chunk {
    /// An empty chunk.
    pub fn new() -> (r: Self)
        ensures
            r.code@ == Seq::<OpCode>::empty(),
    {
        Chunk { code: vec![] }
    }

    /// Appends the instruction that `byte` encodes; when it encodes none,
    /// fails and leaves the chunk as it was.
    pub fn write_chunk(&mut self, byte: u8) -> (r: Result<(), BytecodeError>)
        ensures
            match OpCode::spec_from_byte(byte) {
                Some(op) => r is Ok && final(self).code@ == old(self).code@.push(op),
                None => r is Err && r->Err_0.spec_message() == invalid_byte_message()
                    && final(self).code@ == old(self).code@,
            },
    {
        let op = OpCode::try_from(byte)?;
        self.code.push(op);
        Ok(())
    }
}

} // verus!
