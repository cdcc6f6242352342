//! Parsing of chemical formulas: tokens, syntax trees and molecules.
use vstd::prelude::*;

pub mod grammar;
pub mod molecule;
pub mod tokenstream;
pub mod tree;

pub use molecule::Molecule;
pub use tokenstream::{tokenize, Lexeme, Token, TokenLoc, TokenStream};
pub use tree::{assemble_tree, SyntaxNode, Tree};

verus! {

} // verus!
