//! The abstract syntax of the rewrite-rule language: regular-expression-like
//! patterns over symbols, rewrite rules with left and right contexts, and the
//! statements a script is made of.

use vstd::prelude::*;

verus! {

/// A pattern over symbols. `Char('>')` doubles as the arrow token that, in a
/// rule's source group, splits the underlying prefix from the surface suffix.
#[derive(Debug, PartialEq)]
pub enum RegexAST {
    /// Matches the empty string.
    Epsilon,
    /// Matches the boundary marker `#`.
    Boundary,
    /// One symbol, consumed and re-emitted.
    Char(char),
    /// The members in order.
    Group(Vec<RegexAST>),
    /// Any one of the members.
    Disjunction(Vec<RegexAST>),
    /// Any one symbol out of the set.
    Class(Vec<String>),
    /// Any one symbol of the table that is neither in the set, nor the
    /// boundary marker, nor epsilon.
    ClassComplement(Vec<String>),
    /// Zero or more repetitions.
    Star(Box<RegexAST>),
    /// One or more repetitions.
    Plus(Box<RegexAST>),
    /// Zero or one occurrence.
    Opt(Box<RegexAST>),
    /// A reference to a named macro definition.
    Macro(String),
    /// Matches the empty string; kept by the parser for round-tripping.
    Comment,
}

/// One context rewrite rule: replace `source` by `target` between `left` and
/// `right`.
#[derive(Debug, PartialEq)]
pub struct RewriteRule {
    pub left: RegexAST,
    pub source: RegexAST,
    pub right: RegexAST,
    pub target: RegexAST,
}

/// One statement of a script.
#[derive(Debug, PartialEq)]
pub enum Statement {
    Comment,
    MacroDef(String, RegexAST),
    Rule(RewriteRule),
}

} // verus!
