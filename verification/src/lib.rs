//! Compilation of context-sensitive rewrite rules over symbol sequences into
//! weighted finite-state transducers, together with the combinators that
//! union, pad and validate the compiled relations.
//!
//! Weights are tropical: costs add along a path and alternatives take the
//! minimum. Costs are kept as unsigned integers; the identity weight is cost
//! zero.

pub mod ast;
pub mod algebra;
pub mod compiler;
pub mod lang;
pub mod laws;
pub mod rewrite;
pub mod machine;
pub mod tables;
pub mod validate;
