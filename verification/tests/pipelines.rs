//! Checks of the rule assembler, the two rule-set pipelines, the validator
//! and the algebra boundary.

use mixtec_fst::ast::RegexAST;
use mixtec_fst::ast::RewriteRule;
use mixtec_fst::ast::Statement;
use mixtec_fst::algebra::compose_fst;
use mixtec_fst::algebra::optimize_fst;
use mixtec_fst::algebra::remove_epsilons;
use mixtec_fst::compiler::FstError;
use mixtec_fst::machine::Wfst;
use mixtec_fst::rewrite::compile_as_linear;
use mixtec_fst::rewrite::compile_script;
use mixtec_fst::rewrite::compile_union;
use mixtec_fst::rewrite::count_rules;
use mixtec_fst::rewrite::linearze_rule_fst;
use mixtec_fst::rewrite::FILLER_COST;
use mixtec_fst::tables::MacroTable;
use mixtec_fst::tables::SymTab;
use mixtec_fst::validate::linear_fst;
use mixtec_fst::validate::maps_pair;
use mixtec_fst::validate::paths_from;
use mixtec_fst::validate::validate;

fn abh_table() -> SymTab {
    SymTab::new(&vec!["a".to_owned(), "b".to_owned(), "#".to_owned()])
}

fn accepts_pair(m: &Wfst, input: &[u32], output: &[u32], fuel: u64) -> bool {
    maps_pair(m, &input.to_vec(), &output.to_vec(), fuel)
}

fn simple_rule() -> RewriteRule {
    RewriteRule {
        left: RegexAST::Epsilon,
        source: RegexAST::Group(vec![RegexAST::Char('a')]),
        right: RegexAST::Epsilon,
        target: RegexAST::Group(vec![RegexAST::Char('b')]),
    }
}

#[test]
fn rule_without_group_source_is_refused() {
    let symt = abh_table();
    let macros = MacroTable::new();
    let bad = RewriteRule {
        left: RegexAST::Epsilon,
        source: RegexAST::Char('a'),
        right: RegexAST::Epsilon,
        target: RegexAST::Epsilon,
    };
    assert_eq!(
        linearze_rule_fst(&symt, &macros, &bad, false).unwrap_err(),
        FstError::BadRuleSource
    );
}

#[test]
fn rule_with_leading_arrow_is_refused() {
    let symt = abh_table();
    let macros = MacroTable::new();
    let bad = RewriteRule {
        left: RegexAST::Epsilon,
        source: RegexAST::Group(vec![RegexAST::Char('>'), RegexAST::Char('a')]),
        right: RegexAST::Epsilon,
        target: RegexAST::Epsilon,
    };
    assert_eq!(
        linearze_rule_fst(&symt, &macros, &bad, false).unwrap_err(),
        FstError::BadRuleSource
    );
}

#[test]
fn assembled_rule_consumes_source_and_appends_target() {
    // Source `a` with no arrow: the underlying copy is re-emitted in place
    // and the target is emitted at the end, so `a` maps to `ab`.
    let symt = abh_table();
    let macros = MacroTable::new();
    let w = linearze_rule_fst(&symt, &macros, &simple_rule(), false).unwrap();
    assert!(accepts_pair(&w, &[1], &[1, 2], 40));
    assert!(!accepts_pair(&w, &[1], &[1], 40));
}

#[test]
fn count_rules_counts_only_rule_statements() {
    let script = vec![
        Statement::Comment,
        Statement::Rule(simple_rule()),
        Statement::MacroDef("m".to_owned(), RegexAST::Epsilon),
        Statement::Rule(simple_rule()),
    ];
    assert_eq!(count_rules(&script), 2);
}

#[test]
fn macro_first_definition_wins() {
    let mut macros = MacroTable::new();
    assert!(macros.insert_first_wins("tone".to_owned(), RegexAST::Char('a')));
    assert!(!macros.insert_first_wins("tone".to_owned(), RegexAST::Char('b')));
    assert_eq!(macros.get(&"tone".to_owned()), Some(&RegexAST::Char('a')));
}

#[test]
fn union_builder_pads_smaller_file() {
    // File B carries three rules, file A one: processing B first raises the
    // padding level to 3, so A's automaton is padded with two filler steps
    // of cost 10 before the union. The rule `a -> ab` costs nothing in
    // either file, so the same rewrite is offered at cost 0 through B and at
    // cost 20 through the padded A; the identity derivation only exists
    // through the weighted sigma-star accumulator, which was itself padded
    // up to level 3, so one symbol costs 10 plus two filler steps.
    let symt = abh_table();
    let file_b = vec![
        Statement::Rule(simple_rule()),
        Statement::Rule(simple_rule()),
        Statement::Rule(simple_rule()),
    ];
    let file_a = vec![Statement::Rule(simple_rule())];
    let got = compile_union(&symt, vec![file_b, file_a]).unwrap();

    let costs_of = |input: &[u32], output: &[u32]| -> Vec<u64> {
        let lin = linear_fst(&input.to_vec());
        let composed = compose_fst(&lin, &got).unwrap();
        let mut cs: Vec<u64> = paths_from(&composed, composed.start, 60)
            .into_iter()
            .filter(|(_, o)| o.as_slice() == output)
            .map(|(c, _)| c)
            .collect();
        cs.sort();
        cs.dedup();
        cs
    };
    let rewrite_costs = costs_of(&[1], &[1, 2]);
    assert_eq!(rewrite_costs.first(), Some(&0));
    assert!(rewrite_costs.contains(&20), "padded contribution missing: {:?}", rewrite_costs);
    let identity_costs = costs_of(&[1], &[1]);
    assert_eq!(identity_costs.first(), Some(&30));
}

#[test]
fn drop_left_makes_left_context_irrelevant() {
    // With the left context dropped, a rule whose left pattern demands a
    // preceding `b` behaves exactly like one with no left constraint; with
    // the context kept, the same rule only fires after a `b`.
    let symt = abh_table();
    let macros = MacroTable::new();
    let with_left = RewriteRule {
        left: RegexAST::Group(vec![RegexAST::Char('b')]),
        source: RegexAST::Group(vec![RegexAST::Char('a')]),
        right: RegexAST::Epsilon,
        target: RegexAST::Group(vec![RegexAST::Char('b')]),
    };
    let dropped = linearze_rule_fst(&symt, &macros, &with_left, true).unwrap();
    let plain_dropped = linearze_rule_fst(&symt, &macros, &simple_rule(), true).unwrap();
    for m in [&dropped, &plain_dropped] {
        assert!(accepts_pair(m, &[1], &[1, 2], 40));
    }
    let kept = linearze_rule_fst(&symt, &macros, &with_left, false).unwrap();
    assert!(!accepts_pair(&kept, &[1], &[1, 2], 40));
    assert!(accepts_pair(&kept, &[2, 1], &[2, 1, 2], 40));
}

#[test]
fn symbol_table_assigns_ascending_labels() {
    let symt = abh_table();
    assert_eq!(symt.len(), 4);
    assert_eq!(symt.label_of(&"a".to_owned()), Some(1));
    assert_eq!(symt.label_of(&"b".to_owned()), Some(2));
    assert_eq!(symt.label_of_char('#'), Some(3));
    assert_eq!(symt.label_of(&"z".to_owned()), None);
}

#[test]
fn normalization_relation_requires_an_application() {
    // The two-rule normalization script fires only where a brace or a
    // bracketed annotation stands: `{1` is rewritten (the deletion target is
    // outside this table, so the copy stays as it is), while a plain `n`
    // matches neither rule.
    let symt = tone_table();
    let base = mixtec_fst::validate::get_fst_g3_to_base(&symt).unwrap();
    let l_brace = symt.label_of(&"{".to_owned()).unwrap() as u32;
    let l_one = symt.label_of(&"1".to_owned()).unwrap() as u32;
    let l_n = symt.label_of(&"n".to_owned()).unwrap() as u32;
    assert!(accepts_pair(&base, &[l_brace, l_one], &[l_brace, l_one], 60));
    assert!(!accepts_pair(&base, &[l_n], &[l_n], 60));
}

#[test]
fn optimize_keeps_the_language() {
    // Running the simplification pass once and twice leaves the accepted
    // pairs unchanged.
    let symt = abh_table();
    let macros = MacroTable::new();
    let w = mixtec_fst::compiler::node_fst(
        &symt,
        &macros,
        &RegexAST::Char('a'),
        mixtec_fst::compiler::MACRO_DEPTH,
    )
    .unwrap();
    let once = optimize_fst(&w).unwrap();
    let twice = optimize_fst(&once).unwrap();
    for m in [&once, &twice] {
        assert!(accepts_pair(m, &[1], &[1], 8));
        assert!(!accepts_pair(m, &[2], &[2], 8));
        assert!(!accepts_pair(m, &[], &[], 8));
    }
}

#[test]
fn rm_epsilon_then_optimize_round_trip() {
    // The compiled fragment holds epsilon arcs; removing them and then
    // simplifying must not change the accepted weighted language, and the
    // epsilon removal leaves no epsilon-to-epsilon arc behind.
    let symt = abh_table();
    let macros = MacroTable::new();
    let w = mixtec_fst::compiler::node_fst(
        &symt,
        &macros,
        &RegexAST::Star(Box::new(RegexAST::Char('a'))),
        mixtec_fst::compiler::MACRO_DEPTH,
    )
    .unwrap();
    let no_eps = remove_epsilons(&w).unwrap();
    assert!(no_eps.trs.iter().all(|t| t.il != 0 || t.ol != 0));
    let opt = optimize_fst(&no_eps).unwrap();
    for m in [&w, &no_eps, &opt] {
        assert!(accepts_pair(m, &[], &[], 16));
        assert!(accepts_pair(m, &[1, 1], &[1, 1], 16));
        assert!(!accepts_pair(m, &[2], &[2], 16));
    }
}

fn tone_table() -> SymTab {
    let syms: Vec<String> = "nijo1234{}>#"
        .chars()
        .map(|c| c.to_string())
        .collect();
    SymTab::new(&syms)
}

fn tone_class() -> RegexAST {
    RegexAST::Class(vec![
        "1".to_owned(),
        "2".to_owned(),
        "3".to_owned(),
        "4".to_owned(),
    ])
}

fn sample_script() -> Vec<Statement> {
    // One macro and one rule: the bracketed tone process {T>T>T} is consumed,
    // its first tone re-emitted in place, the rest of the word copied through
    // a complement class, and the annotation records appended between
    // boundary markers.
    let t = || RegexAST::Macro("tone".to_owned());
    vec![
        Statement::MacroDef("tone".to_owned(), tone_class()),
        Statement::Rule(RewriteRule {
            left: RegexAST::Epsilon,
            source: RegexAST::Group(vec![
                RegexAST::Char('{'),
                t(),
                RegexAST::Char('>'),
                t(),
                RegexAST::Char('>'),
                t(),
                RegexAST::Char('}'),
            ]),
            right: RegexAST::Star(Box::new(RegexAST::ClassComplement(vec!["#".to_owned()]))),
            target: RegexAST::Group(vec![
                RegexAST::Boundary,
                t(),
                RegexAST::Char('>'),
                t(),
                RegexAST::Char('>'),
                t(),
                RegexAST::Boundary,
                RegexAST::Boundary,
                t(),
                t(),
                RegexAST::Char('>'),
                t(),
                t(),
                RegexAST::Boundary,
            ]),
        }),
    ]
}

#[test]
fn validate_accepts_the_sample_pair() {
    let symt = tone_table();
    let relation = compile_script(&symt, sample_script()).unwrap();
    let ok = validate(
        &relation,
        &symt,
        "ni{3>1>4}jo14",
        "ni3jo14##3>1>4##14>14",
        true,
        120,
    )
    .unwrap();
    assert!(ok);
}

#[test]
fn validate_non_intermediate_path_stays_negative() {
    // Through the normalization relation the sample pair cannot validate:
    // the assembled normalization rules re-emit what they consume, so they
    // accept only strings that still hold a brace or a bracketed annotation,
    // and the expected form holds neither.
    let symt = tone_table();
    let relation = compile_script(&symt, sample_script()).unwrap();
    let ok = validate(
        &relation,
        &symt,
        "ni{3>1>4}jo14",
        "ni3jo14##3>1>4##14>14",
        false,
        120,
    )
    .unwrap();
    assert!(!ok);
}

#[test]
fn validate_rejects_a_wrong_expectation() {
    let symt = tone_table();
    let relation = compile_script(&symt, sample_script()).unwrap();
    let ok = validate(&relation, &symt, "ni{3>1>4}jo14", "nijo", true, 120).unwrap();
    assert!(!ok);
}

#[test]
fn linear_compiler_builds_a_relation() {
    // A macro-only script: the linear pipeline still determinizes sigma-star
    // and applies the fixed number of context compositions.
    let symt = abh_table();
    let script = vec![
        Statement::MacroDef("segment".to_owned(), RegexAST::Char('a')),
        Statement::MacroDef("tone".to_owned(), RegexAST::Char('b')),
    ];
    let w = compile_as_linear(&symt, script).unwrap();
    assert!(w.finals.len() >= 1);
}
