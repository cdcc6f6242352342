//! The error type of the crate.
use vstd::prelude::*;

use crate::formula::tokenstream::diagnostic;
use crate::formula::{Molecule, SyntaxNode, TokenLoc};

verus! {

/// The error type for this crate
#[derive(Debug)]
pub enum StoikError {
    /// A token is in an invalid location
    InvalidToken(TokenLoc),
    /// An input is invalid; the generic error, also used when a count does not
    /// fit in 64 bits
    InvalidInput(String),
    /// A number is the first element of a group, e.g. the 5 in `Cr2(5SO4)3`
    /// (but not the 3 in `3H2O`, which counts molecules)
    NumberFirst(TokenLoc),
    /// Unpaired parenthesis
    UnpairedParenthesis(TokenLoc),
    /// Unpaired square bracket
    UnpairedBracket(TokenLoc),
    /// Empty molecule
    EmptyMolecule,
    /// A syntax node in a place where it cannot stand, with the molecule
    /// built up to that point
    InvalidNode(SyntaxNode, Molecule),
}

/// The kind of a [`StoikError`] together with the plain data it carries.
pub enum Fault {
    InvalidToken(TokenLoc),
    InvalidInput,
    NumberFirst(TokenLoc),
    UnpairedParenthesis(TokenLoc),
    UnpairedBracket(TokenLoc),
    EmptyMolecule,
    InvalidNode,
}

impl View for StoikError {
    type V = Fault;

    open spec fn view(&self) -> Fault {
        match self {
            StoikError::InvalidToken(l) => Fault::InvalidToken(*l),
            StoikError::InvalidInput(_) => Fault::InvalidInput,
            StoikError::NumberFirst(l) => Fault::NumberFirst(*l),
            StoikError::UnpairedParenthesis(l) => Fault::UnpairedParenthesis(*l),
            StoikError::UnpairedBracket(l) => Fault::UnpairedBracket(*l),
            StoikError::EmptyMolecule => Fault::EmptyMolecule,
            StoikError::InvalidNode(_, _) => Fault::InvalidNode,
        }
    }
}

/// The text that describes an error.
pub open spec fn error_text(e: StoikError) -> Seq<char> {
    match e {
        StoikError::InvalidInput(s) => "Invalid input: "@ + s@,
        StoikError::NumberFirst(_) => "A number cannot be the first element in a component formula (`2H2O` is legal, `Cr2(*5*SO4)3` is not)"@,
        StoikError::InvalidToken(_) => "Invalid token"@,
        StoikError::UnpairedBracket(_) => "Unpaired bracket"@,
        StoikError::UnpairedParenthesis(_) => "Unpaired parenthesis"@,
        StoikError::EmptyMolecule => "Cannot have an empty molecule"@,
        StoikError::InvalidNode(_, _) => "Invalid syntax node: a mole count below the top of the tree"@,
    }
}

impl StoikError {
    /// Describes the error in words.
    pub fn to_string(&self) -> (r: String)
        ensures
            r@ == error_text(*self),
    {
        match self {
            StoikError::InvalidInput(s) => String::from_str("Invalid input: ").concat(s.as_str()),
            StoikError::NumberFirst(_) => String::from_str(
                "A number cannot be the first element in a component formula (`2H2O` is legal, `Cr2(*5*SO4)3` is not)",
            ),
            StoikError::InvalidToken(_) => String::from_str("Invalid token"),
            StoikError::UnpairedBracket(_) => String::from_str("Unpaired bracket"),
            StoikError::UnpairedParenthesis(_) => String::from_str("Unpaired parenthesis"),
            StoikError::EmptyMolecule => String::from_str("Cannot have an empty molecule"),
            StoikError::InvalidNode(_, _) => String::from_str(
                "Invalid syntax node: a mole count below the top of the tree",
            ),
        }
    }
}

/// The message that reports an error in `formula`: the formula with carets
/// under the offending token where the error has a location, else the text of
/// the error.
pub open spec fn error_message(e: StoikError, formula: Seq<char>) -> Seq<char> {
    match e {
        StoikError::InvalidToken(loc) => diagnostic(loc, formula, "Malformed formula"@, "Illegal token"@),
        StoikError::NumberFirst(loc) => diagnostic(
            loc,
            formula,
            "Malformed formula"@,
            "Compound groups cannot start with numbers"@,
        ),
        StoikError::UnpairedParenthesis(loc) => diagnostic(
            loc,
            formula,
            "Malformed formula"@,
            "Unpaired parenthesis"@,
        ),
        StoikError::UnpairedBracket(loc) => diagnostic(loc, formula, "Malformed formula"@, "Unpaired bracket"@),
        _ => error_text(e),
    }
}

/// Reports an error in `formula` for a reader.
pub fn generate_error_msg(e: StoikError, formula: &str) -> (r: String)
    ensures
        r@ == error_message(e, formula@),
{
    match e {
        StoikError::InvalidToken(loc) => loc.format_msg(formula, "Malformed formula", "Illegal token"),
        StoikError::NumberFirst(loc) => loc.format_msg(
            formula,
            "Malformed formula",
            "Compound groups cannot start with numbers",
        ),
        StoikError::UnpairedParenthesis(loc) => loc.format_msg(formula, "Malformed formula", "Unpaired parenthesis"),
        StoikError::UnpairedBracket(loc) => loc.format_msg(formula, "Malformed formula", "Unpaired bracket"),
        e => e.to_string(),
    }
}

} // verus!
