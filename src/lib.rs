//! Stoichiometric utilities: chemical formulas are tokenised, assembled into a
//! syntax tree, reduced to atom counts, and equations are checked for balance.
use vstd::prelude::*;

mod err;
pub mod names;
pub mod text;
pub mod balance;
pub mod equation;
pub mod formula;

pub use err::{generate_error_msg, Fault, StoikError};

verus! {

/// A widget identifier of the graphical front end, unique to this program.
pub fn id(name: &str) -> (r: String)
    ensures
        r@ == "stoik-gui-"@ + name@,
{
    String::from_str("stoik-gui-").concat(name)
}

} // verus!
