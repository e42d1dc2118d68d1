//! Compilation of print-transducer programs into quantifier-free
//! interpretations of finite words, their evaluation, and the pullback of
//! first-order post-conditions into two-sorted formulas for solvers.

pub mod text;

pub mod ast;
pub mod lexer;
pub mod parser;

pub mod bexpr_evaluator;
pub mod interpreter;

pub mod label;
pub mod order;
pub mod compile;
pub mod qf_interpretation;
pub mod laws;

pub mod formula;
pub mod two_sorted_formulas;
pub mod qf_pullback;

pub mod guarded;
pub mod loops;
