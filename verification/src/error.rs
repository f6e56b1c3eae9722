//! The errors an assembly run can end in, together with their ghost model.

use vstd::prelude::*;
use vstd::string::StringExecFns;

verus! {

/// Ghost-level picture of an assembly error: the same variants as
/// [`AsmError`], with offending tokens as character sequences.
pub enum ErrV {
    /// A numeric token failed the value grammar or overflowed 16 bits.
    InvalidNumber,
    /// A quoted character literal shorter than two characters.
    MalformedCharLiteral,
    /// A data line whose value token failed the value grammar; carries the token.
    MalformedValue(Seq<char>),
    /// Data plus code would not fit the 12-bit address space.
    ProgramTooLarge,
    /// A memory-reference operand that is neither a symbol nor a literal.
    UndefinedOperand(Seq<char>),
    /// A mnemonic that matches no entry of the opcode table.
    UnknownInstruction(Seq<char>),
}

/// Why an assembly run failed. Every failure is fatal: the run produces
/// either a complete program image or one of these values, never a panic.
#[derive(Debug)]
pub enum AsmError {
    /// A numeric token failed the value grammar or overflowed 16 bits.
    InvalidNumber,
    /// A quoted character literal shorter than two characters.
    MalformedCharLiteral,
    /// A data line whose value token failed the value grammar; carries the token.
    MalformedValue(String),
    /// Data plus code would not fit the 12-bit address space.
    ProgramTooLarge,
    /// A memory-reference operand that is neither a symbol nor a literal.
    UndefinedOperand(String),
    /// A mnemonic that matches no entry of the opcode table.
    UnknownInstruction(String),
}

impl View for AsmError {
    type V = ErrV;

    open spec fn view(&self) -> ErrV {
        match self {
            AsmError::InvalidNumber => ErrV::InvalidNumber,
            AsmError::MalformedCharLiteral => ErrV::MalformedCharLiteral,
            AsmError::MalformedValue(t) => ErrV::MalformedValue(t@),
            AsmError::ProgramTooLarge => ErrV::ProgramTooLarge,
            AsmError::UndefinedOperand(t) => ErrV::UndefinedOperand(t@),
            AsmError::UnknownInstruction(t) => ErrV::UnknownInstruction(t@),
        }
    }
}

impl AsmError {
    /// A short description of the error, naming the offending token where
    /// one is carried.
    pub fn describe(&self) -> String {
        match self {
            AsmError::InvalidNumber => String::from_str("invalid numeric value"),
            AsmError::MalformedCharLiteral => String::from_str("malformed character literal"),
            AsmError::MalformedValue(t) => {
                let mut s = String::from_str("unparsable value '");
                s.append(t.as_str());
                s.append("'");
                s
            },
            AsmError::ProgramTooLarge => {
                String::from_str("the program exceeds the max size allowed (4096 16-bit words)")
            },
            AsmError::UndefinedOperand(t) => {
                let mut s = String::from_str("'");
                s.append(t.as_str());
                s.append("' is undefined and not a valid value");
                s
            },
            AsmError::UnknownInstruction(t) => {
                let mut s = String::from_str("'");
                s.append(t.as_str());
                s.append("' is not a recognized instruction");
                s
            },
        }
    }
}

/// The view of an exec `Result` carrying an [`AsmError`], for contracts that
/// compare against a ghost result.
pub open spec fn res_view<T>(r: Result<T, AsmError>) -> Result<T, ErrV> {
    match r {
        Ok(v) => Ok(v),
        Err(e) => Err(e@),
    }
}

} // verus!
