//! Error kinds of the assembler. Every error is a deterministic function of
//! the source text; the first one encountered aborts the whole run.

use vstd::prelude::*;

verus! {

/// What can go wrong while assembling one source buffer.
#[derive(Debug)]
pub enum AsmError {
    /// A non-empty cleaned line matches none of the three instruction
    /// shapes. Carries the 1-based line number and the line's text.
    UnrecognizedLine { line: u64, text: Vec<u8> },
    /// A compute line whose operation mnemonic is not in the fixed table.
    InvalidOperation { token: Vec<u8> },
    /// A compute line whose destination mnemonic is not in the fixed table.
    InvalidDestination { token: Vec<u8> },
    /// A compute line whose jump mnemonic is not in the fixed table.
    InvalidJump { token: Vec<u8> },
    /// A compute line with neither a destination nor a jump.
    MissingEffect,
    /// An address literal that does not fit in 15 bits.
    AddressOutOfRange { text: Vec<u8> },
    /// A label name that is already bound, to the address given here.
    DuplicateLabel { name: Vec<u8>, address: u16 },
    /// The instruction address counter cannot go past its last value.
    ProgramTooLarge,
}

/// Ghost mirror of `AsmError`, over mathematical sequences.
pub enum ErrView {
    UnrecognizedLine { line: nat, text: Seq<u8> },
    InvalidOperation { token: Seq<u8> },
    InvalidDestination { token: Seq<u8> },
    InvalidJump { token: Seq<u8> },
    MissingEffect,
    AddressOutOfRange { text: Seq<u8> },
    DuplicateLabel { name: Seq<u8>, address: u16 },
    ProgramTooLarge,
}

impl View for AsmError {
    type V = ErrView;

    open spec fn view(&self) -> ErrView {
        match self {
            AsmError::UnrecognizedLine { line, text } => ErrView::UnrecognizedLine {
                line: *line as nat,
                text: text@,
            },
            AsmError::InvalidOperation { token } => ErrView::InvalidOperation { token: token@ },
            AsmError::InvalidDestination { token } => ErrView::InvalidDestination {
                token: token@,
            },
            AsmError::InvalidJump { token } => ErrView::InvalidJump { token: token@ },
            AsmError::MissingEffect => ErrView::MissingEffect,
            AsmError::AddressOutOfRange { text } => ErrView::AddressOutOfRange { text: text@ },
            AsmError::DuplicateLabel { name, address } => ErrView::DuplicateLabel {
                name: name@,
                address: *address,
            },
            AsmError::ProgramTooLarge => ErrView::ProgramTooLarge,
        }
    }
}

} // verus!
