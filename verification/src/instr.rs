use vstd::prelude::*;

verus! {

/// One operation of a compiled program.
///
/// Movement and arithmetic instructions carry run-length-encoded magnitudes:
/// a maximal run of movement (or arithmetic) characters collapses into one
/// instruction holding the net effect of the whole run. `LoopStart` and
/// `LoopEnd` carry the index of the matching bracket instruction, filled in
/// by the resolution pass; until then the field holds a placeholder.
/// `Clear`, `ScanLeft` and `ScanRight` are the bulk operations that the
/// rewriter's shorthand characters stand for.
#[derive(Clone, Copy, Debug, PartialEq, Eq, Structural)]
pub enum Instruction {
    /// Move the cursor right by the given number of cells.
    MoveRight(usize),
    /// Move the cursor left by the given number of cells.
    MoveLeft(usize),
    /// Add the given amount to the cell under the cursor, wrapping modulo 256.
    Add(u8),
    /// Subtract the given amount from the cell under the cursor, wrapping modulo 256.
    Sub(u8),
    /// Append the cell under the cursor to the output.
    PutChar,
    /// Read one byte into the cell under the cursor; intentionally unimplemented.
    GetChar,
    /// Enter the loop when the cell under the cursor is nonzero; otherwise
    /// jump past the matching `LoopEnd`, whose index the field holds.
    LoopStart(usize),
    /// Re-enter the loop when the cell under the cursor is nonzero, jumping
    /// back to the matching `LoopStart`, whose index the field holds.
    LoopEnd(usize),
    /// Set the cell under the cursor to zero.
    Clear,
    /// Move the cursor left until it rests on a zero cell.
    ScanLeft,
    /// Move the cursor right until it rests on a zero cell.
    ScanRight,
}

/// Why an evaluation was aborted. No partial output is ever returned with one
/// of these.
#[derive(Clone, Copy, Debug, PartialEq, Eq, Structural)]
pub enum EvalError {
    /// A character outside the recognized instruction set reached the compiler.
    UnrecognizedInstruction,
    /// A loop bracket had no matching partner.
    UnbalancedBrackets,
    /// The read-a-byte instruction was executed; that capability does not exist.
    InputUnsupported,
    /// The cursor left the tape, or a jump target left the program.
    OutOfBounds,
    /// The output bytes do not form valid text.
    InvalidOutput,
    /// The machine took its whole step budget without halting and the run was
    /// abandoned; the budget is far beyond what any hardware could execute.
    StepLimitExceeded,
}

} // verus!
