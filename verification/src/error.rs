use vstd::prelude::*;

verus! {

/// Everything that can go wrong while decoding a dump or analysing a prototype.
#[derive(Debug, Clone, Copy, PartialEq, Eq)]
pub enum DecompileError {
    /// The input ended before a complete item could be read.
    IO,
    /// A variable-length integer ran over its maximum width.
    InvalidULeb128,
    /// The dump header is not acceptable; the payload names the reason.
    InvalidHeaderBytes(&'static str),
    /// The opcode byte of an instruction is not part of the instruction set.
    UnknownInsOpcode,
    /// A known instruction stands where the analysis cannot handle it.
    UnexpectedInsOpcode,
    /// A primitive operand is none of nil, false, true.
    InvalidPriValue,
    /// A branch leads outside the instruction stream.
    InvalidJumpTarget,
}

} // verus!
