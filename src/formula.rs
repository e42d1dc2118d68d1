//! Quantifier-free formulas over named positions, as a plain tree.
use vstd::prelude::*;

verus! {

/// A variable name.
pub type VarName = String;

/// A quantifier-free formula over position variables.
#[derive(Debug)]
pub enum Formula {
    True,
    False,
    Less(VarName, VarName),
    Equal(VarName, VarName),
    NotEqual(VarName, VarName),
    Greater(VarName, VarName),
    GreaterEqual(VarName, VarName),
    IsLetter(VarName, String),
    IsNotLetter(VarName, String),
    Or(Box<Formula>, Box<Formula>),
    And(Box<Formula>, Box<Formula>),
    Not(Box<Formula>),
}

} // verus!
