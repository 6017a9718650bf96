//! Structural and language-level checks of the node compiler's fragments.

use mixtec_fst::ast::RegexAST;
use mixtec_fst::compiler::node_fst;
use mixtec_fst::compiler::MACRO_DEPTH;
use mixtec_fst::machine::Trans;
use mixtec_fst::machine::Wfst;
use mixtec_fst::tables::MacroTable;
use mixtec_fst::tables::SymTab;
use mixtec_fst::validate::maps_pair;

fn abh_table() -> SymTab {
    SymTab::new(&vec!["a".to_owned(), "b".to_owned(), "#".to_owned()])
}

fn accepts_pair(m: &Wfst, input: &[u32], output: &[u32], fuel: u64) -> bool {
    maps_pair(m, &input.to_vec(), &output.to_vec(), fuel)
}

#[test]
fn char_fragment_structure() {
    let symt = abh_table();
    let macros = MacroTable::new();
    let w = node_fst(&symt, &macros, &RegexAST::Char('a'), MACRO_DEPTH).unwrap();
    // Label of "a" is 1 (epsilon holds label 0).
    assert_eq!(w.start, 0);
    assert_eq!(w.finals, vec![None, None, Some(0)]);
    assert_eq!(
        w.trs,
        vec![
            Trans { from: 0, il: 0, ol: 0, cost: 0, to: 1 },
            Trans { from: 1, il: 1, ol: 1, cost: 0, to: 2 },
        ]
    );
}

#[test]
fn char_accepts_exactly_itself() {
    let symt = abh_table();
    let macros = MacroTable::new();
    let w = node_fst(&symt, &macros, &RegexAST::Char('a'), MACRO_DEPTH).unwrap();
    assert!(accepts_pair(&w, &[1], &[1], 8));
    assert!(!accepts_pair(&w, &[2], &[2], 8));
    assert!(!accepts_pair(&w, &[], &[], 8));
    assert!(!accepts_pair(&w, &[1, 1], &[1, 1], 8));
}

#[test]
fn star_accepts_repetitions() {
    let symt = abh_table();
    let macros = MacroTable::new();
    let star = node_fst(
        &symt,
        &macros,
        &RegexAST::Star(Box::new(RegexAST::Char('a'))),
        MACRO_DEPTH,
    )
    .unwrap();
    assert!(accepts_pair(&star, &[], &[], 12));
    assert!(accepts_pair(&star, &[1], &[1], 12));
    assert!(accepts_pair(&star, &[1, 1, 1], &[1, 1, 1], 24));
    assert!(!accepts_pair(&star, &[2], &[2], 12));
}

#[test]
fn plus_requires_one_occurrence() {
    let symt = abh_table();
    let macros = MacroTable::new();
    let plus = node_fst(
        &symt,
        &macros,
        &RegexAST::Plus(Box::new(RegexAST::Char('a'))),
        MACRO_DEPTH,
    )
    .unwrap();
    assert!(!accepts_pair(&plus, &[], &[], 12));
    assert!(accepts_pair(&plus, &[1], &[1], 12));
    assert!(accepts_pair(&plus, &[1, 1], &[1, 1], 16));
}

#[test]
fn class_complement_excludes_boundary_and_epsilon() {
    // Over a table holding exactly a, b and #, the complement of {a}
    // accepts exactly the single symbol b: never a, never #, never epsilon.
    let symt = abh_table();
    let macros = MacroTable::new();
    let w = node_fst(
        &symt,
        &macros,
        &RegexAST::ClassComplement(vec!["a".to_owned()]),
        MACRO_DEPTH,
    )
    .unwrap();
    // Labels: a = 1, b = 2, # = 3.
    assert!(accepts_pair(&w, &[2], &[2], 8));
    assert!(!accepts_pair(&w, &[1], &[1], 8));
    assert!(!accepts_pair(&w, &[3], &[3], 8));
    assert!(!accepts_pair(&w, &[], &[], 8));
}

#[test]
fn unknown_class_symbol_is_skipped() {
    let symt = abh_table();
    let macros = MacroTable::new();
    let w = node_fst(
        &symt,
        &macros,
        &RegexAST::Class(vec!["a".to_owned(), "z".to_owned()]),
        MACRO_DEPTH,
    )
    .unwrap();
    // Only one arc besides the glue arc: the unknown symbol contributes none.
    let class_arcs: Vec<&Trans> = w.trs.iter().filter(|t| t.il != 0).collect();
    assert_eq!(class_arcs.len(), 1);
    assert_eq!(class_arcs[0].il, 1);
}

#[test]
fn disjunction_offers_both_branches() {
    let symt = abh_table();
    let macros = MacroTable::new();
    let w = node_fst(
        &symt,
        &macros,
        &RegexAST::Disjunction(vec![RegexAST::Char('a'), RegexAST::Char('b')]),
        MACRO_DEPTH,
    )
    .unwrap();
    assert!(accepts_pair(&w, &[1], &[1], 12));
    assert!(accepts_pair(&w, &[2], &[2], 12));
    assert!(!accepts_pair(&w, &[3], &[3], 12));
}

#[test]
fn optional_accepts_zero_or_one() {
    let symt = abh_table();
    let macros = MacroTable::new();
    let w = node_fst(
        &symt,
        &macros,
        &RegexAST::Opt(Box::new(RegexAST::Char('b'))),
        MACRO_DEPTH,
    )
    .unwrap();
    assert!(accepts_pair(&w, &[], &[], 12));
    assert!(accepts_pair(&w, &[2], &[2], 12));
    assert!(!accepts_pair(&w, &[2, 2], &[2, 2], 12));
}

#[test]
fn undefined_macro_compiles_as_epsilon() {
    let symt = abh_table();
    let macros = MacroTable::new();
    let w = node_fst(&symt, &macros, &RegexAST::Macro("nosuch".to_owned()), MACRO_DEPTH).unwrap();
    assert!(accepts_pair(&w, &[], &[], 8));
    assert!(!accepts_pair(&w, &[1], &[1], 8));
}

#[test]
fn boundary_consumes_the_marker() {
    let symt = abh_table();
    let macros = MacroTable::new();
    let w = node_fst(&symt, &macros, &RegexAST::Boundary, MACRO_DEPTH).unwrap();
    assert!(accepts_pair(&w, &[3], &[3], 8));
    assert!(!accepts_pair(&w, &[1], &[1], 8));
}
