//! The rewrite-rule assembler and the two rule-set pipelines: the linear
//! compiler with its fixed context-composition pass, and the union builder
//! with cost-normalizing padding.

use vstd::prelude::*;
use crate::ast::RegexAST;
use crate::ast::RewriteRule;
use crate::ast::Statement;
use crate::algebra::compose_fst;
use crate::algebra::determinize_functional;
use crate::algebra::minimize_fst;
use crate::algebra::optimize_fst;
use crate::algebra::remove_epsilons;
use crate::compiler::FstError;
use crate::compiler::MACRO_DEPTH;
use crate::compiler::node_fst;
use crate::compiler::spec_compile;
use crate::compiler::spec_group;
use crate::compiler::lemma_group_msize_mono;
use crate::machine::lemma_concat_msize;
use crate::machine::msize;
use crate::compiler::single;
use crate::lang::aw;
use crate::lang::comp_aw;
use crate::lang::functional;
use crate::lang::lang_eq;
use crate::lang::lemma_union_lang;
use crate::lang::accepting;
use crate::machine::Mach;
use crate::machine::Wfst;
use crate::machine::spec_concat;
use crate::machine::spec_dead;
use crate::machine::spec_filler;
use crate::machine::spec_input_eps;
use crate::machine::spec_output_eps;
use crate::machine::spec_seed;
use crate::machine::spec_sigma;
use crate::machine::spec_union;
use crate::tables::MacroTable;
use crate::tables::SymTab;
use crate::tables::spec_macro;

verus! {

/// The fixed number of tone-bearing segment positions the linear pipeline
/// models; words with more positions are out of scope by design.
pub const CONTEXT_POSITIONS: u64 = 4;

/// The padding cost of one filler step in the union builder.
pub const FILLER_COST: u32 = 10;

/// First position at or after `from` of the arrow token.
pub open spec fn arrow_idx(ns: Seq<RegexAST>, from: int) -> Option<int>
    decreases ns.len() - from,
{
    if from < 0 || from >= ns.len() {
        None
    } else if ns[from] == RegexAST::Char('>') {
        Some(from)
    } else {
        arrow_idx(ns, from + 1)
    }
}

/// A rule's source must be a group, and if it holds the arrow token, the
/// token must not stand first: the underlying prefix would be empty.
pub open spec fn spec_rule_ok(rule: RewriteRule) -> bool {
    &&& rule.source is Group
    &&& match arrow_idx(rule.source->Group_0@, 0) {
        Some(a) => a >= 1,
        None => true,
    }
}

/// Every rule statement among the first `k` is well-shaped.
pub open spec fn rules_ok(sc: Seq<Statement>, k: int) -> bool
    decreases k,
{
    if k <= 0 {
        true
    } else {
        rules_ok(sc, k - 1) && (match sc[k - 1] {
            Statement::Rule(rule) => spec_rule_ok(rule),
            _ => true,
        })
    }
}

/// Well-shapedness of the first `n` statements covers each one of them.
pub proof fn lemma_rules_ok_at(sc: Seq<Statement>, k: int, n: int)
    requires
        rules_ok(sc, n),
        0 <= k < n,
    ensures
        sc[k] is Rule ==> spec_rule_ok(sc[k]->Rule_0),
    decreases n,
{
    if k < n - 1 {
        lemma_rules_ok_at(sc, k, n - 1);
    }
}

/// Every rule of every one of the first `j` files is well-shaped.
pub open spec fn files_rules_ok(fs: Seq<Vec<Statement>>, j: int) -> bool
    decreases j,
{
    if j <= 0 {
        true
    } else {
        files_rules_ok(fs, j - 1) && rules_ok(fs[j - 1]@, fs[j - 1]@.len() as int)
    }
}

/// Well-shapedness of the first `n` files covers each one of them.
pub proof fn lemma_files_rules_ok_at(fs: Seq<Vec<Statement>>, k: int, n: int)
    requires
        files_rules_ok(fs, n),
        0 <= k < n,
    ensures
        rules_ok(fs[k]@, fs[k]@.len() as int),
    decreases n,
{
    if k < n - 1 {
        lemma_files_rules_ok_at(fs, k, n - 1);
    }
}

/// The underlying prefix of a source group: what stands between the opening
/// element and the arrow, or the whole group when no arrow is present.
pub open spec fn spec_underlying(ns: Seq<RegexAST>) -> Seq<RegexAST> {
    match arrow_idx(ns, 0) {
        Some(a) => ns.subrange(1, a),
        None => ns,
    }
}

/// An empty context means no constraint: the unrestricted sigma-star
/// fragment; any other pattern is compiled as itself.
pub open spec fn spec_context(
    st: Seq<Seq<char>>,
    mac: Seq<(Seq<char>, RegexAST)>,
    node: RegexAST,
    depth: int,
) -> Mach {
    if node == RegexAST::Epsilon {
        spec_sigma(st.len() as int, 0)
    } else {
        spec_compile(st, mac, node, depth)
    }
}

/// The assembled rule automaton, before the closing simplification pass:
/// the fixed chain [left unless dropped], source consuming, underlying
/// emitting, right, sigma-star, target emitting, its last state made
/// accepting, wrapped in a fresh seed.
pub open spec fn spec_rule_chain(
    st: Seq<Seq<char>>,
    mac: Seq<(Seq<char>, RegexAST)>,
    rule: RewriteRule,
    drop_left: bool,
    depth: int,
) -> Mach {
    let ns = rule.source->Group_0@;
    let und = spec_input_eps(spec_group(st, mac, spec_underlying(ns), depth));
    let src = spec_output_eps(spec_group(st, mac, ns, depth));
    let tgt = spec_input_eps(spec_compile(st, mac, rule.target, depth));
    let lft = spec_context(st, mac, rule.left, depth);
    let rgt = spec_context(st, mac, rule.right, depth);
    let univ = spec_sigma(st.len() as int, 0);
    let base = if drop_left {
        crate::compiler::spec_single(0)
    } else {
        spec_concat(crate::compiler::spec_single(0), lft)
    };
    let chain = spec_concat(
        spec_concat(spec_concat(spec_concat(spec_concat(base, src), und), rgt), univ),
        tgt,
    );
    let sealed = Mach {
        finals: chain.finals.update(chain.nstates() - 1, Some(0int)),
        ..chain
    };
    spec_concat(crate::compiler::spec_single(0), sealed)
}

/// The assembled chain before sealing and wrapping: the concatenation of
/// the six fragments in their fixed order.
pub open spec fn chain5(base: Mach, src: Mach, und: Mach, rgt: Mach, univ: Mach, tgt: Mach) -> Mach {
    spec_concat(
        spec_concat(spec_concat(spec_concat(spec_concat(base, src), und), rgt), univ),
        tgt,
    )
}

/// The assembled chain is at least as large as each stage and fragment.
pub proof fn lemma_chain_msize(base: Mach, src: Mach, und: Mach, rgt: Mach, univ: Mach, tgt: Mach)
    ensures
        msize(chain5(base, src, und, rgt, univ, tgt)) >= msize(base),
        msize(chain5(base, src, und, rgt, univ, tgt)) >= msize(src),
        msize(chain5(base, src, und, rgt, univ, tgt)) >= msize(und),
        msize(chain5(base, src, und, rgt, univ, tgt)) >= msize(rgt),
        msize(chain5(base, src, und, rgt, univ, tgt)) >= msize(univ),
        msize(chain5(base, src, und, rgt, univ, tgt)) >= msize(tgt),
        msize(chain5(base, src, und, rgt, univ, tgt)) >= msize(spec_concat(base, src)),
        msize(chain5(base, src, und, rgt, univ, tgt)) >= msize(
            spec_concat(spec_concat(base, src), und),
        ),
        msize(chain5(base, src, und, rgt, univ, tgt)) >= msize(
            spec_concat(spec_concat(spec_concat(base, src), und), rgt),
        ),
        msize(chain5(base, src, und, rgt, univ, tgt)) >= msize(
            spec_concat(spec_concat(spec_concat(spec_concat(base, src), und), rgt), univ),
        ),
{
    let c1 = spec_concat(base, src);
    let c2 = spec_concat(c1, und);
    let c3 = spec_concat(c2, rgt);
    let c4 = spec_concat(c3, univ);
    lemma_concat_msize(base, src);
    lemma_concat_msize(c1, und);
    lemma_concat_msize(c2, rgt);
    lemma_concat_msize(c3, univ);
    lemma_concat_msize(c4, tgt);
}

/// First position of the arrow token in a source group.
fn find_arrow(nodes: &Vec<RegexAST>) -> (r: Option<usize>)
    ensures
        match r {
            Some(a) => arrow_idx(nodes@, 0) == Some(a as int) && a < nodes@.len(),
            None => arrow_idx(nodes@, 0) is None,
        },
{
    let n: usize = nodes.len();
    let mut k: usize = 0;
    while k < n
        invariant
            0 <= k <= n,
            n == nodes@.len(),
            arrow_idx(nodes@, 0) == arrow_idx(nodes@, k as int),
        decreases n - k,
    {
        let hit: bool = match &nodes[k] {
            RegexAST::Char(c) => *c == '>',
            _ => false,
        };
        proof {
            if hit {
                assert(nodes@[k as int] == RegexAST::Char('>'));
            } else {
                assert(nodes@[k as int] != RegexAST::Char('>'));
            }
        }
        if hit {
            return Some(k);
        }
        k = k + 1;
    }
    None
}

/// A context fragment: sigma-star for an empty context, the compiled
/// pattern otherwise.
fn context_fst(symt: &SymTab, macros: &MacroTable, node: &RegexAST) -> (r: Result<Wfst, FstError>)
    requires
        1 <= symt@.len() <= 0xffff_ffff,
    ensures
        r matches Ok(w) ==> w.wf() && w.m() == spec_context(
            symt@,
            macros@,
            *node,
            MACRO_DEPTH as int,
        ),
        r matches Err(e) ==> e == FstError::TooLarge,
        msize(spec_context(symt@, macros@, *node, MACRO_DEPTH as int)) <= usize::MAX ==> r is Ok,
{
    match node {
        RegexAST::Epsilon => Ok(Wfst::sigma(symt.len(), 0)),
        _ => node_fst(symt, macros, node, MACRO_DEPTH),
    }
}

/// Builds the assembled rule chain itself: the fixed concatenation, sealed
/// and wrapped, before the closing simplification pass.
#[verifier::rlimit(100)]
#[verifier::loop_isolation(false)]
fn assemble_rule_chain(
    symt: &SymTab,
    macros: &MacroTable,
    rule: &RewriteRule,
    drop_left: bool,
) -> (r: Result<Wfst, FstError>)
    requires
        1 <= symt@.len() <= 0xffff_ffff,
    ensures
        !spec_rule_ok(*rule) <==> r == Err::<Wfst, FstError>(FstError::BadRuleSource),
        r matches Ok(w) ==> w.wf() && w.m() == spec_rule_chain(
            symt@,
            macros@,
            *rule,
            drop_left,
            MACRO_DEPTH as int,
        ),
        msize(spec_rule_chain(symt@, macros@, *rule, drop_left, MACRO_DEPTH as int))
            <= usize::MAX && msize(
            spec_context(symt@, macros@, rule.left, MACRO_DEPTH as int),
        ) <= usize::MAX ==> !(r == Err::<Wfst, FstError>(FstError::TooLarge)),
{
    let nodes: &Vec<RegexAST> = match &rule.source {
        RegexAST::Group(v) => v,
        _ => {
            return Err(FstError::BadRuleSource);
        },
    };
    let n: usize = nodes.len();
    let arrow: Option<usize> = find_arrow(nodes);
    let (ustart, uend): (usize, usize) = match arrow {
        Some(a) => {
            if a == 0 {
                return Err(FstError::BadRuleSource);
            }
            (1usize, a)
        },
        None => (0usize, n),
    };
    let ghost dd: int = MACRO_DEPTH as int;
    let ghost stv: Seq<Seq<char>> = symt@;
    let ghost mv: Seq<(Seq<char>, RegexAST)> = macros@;
    let ghost csrc: Mach = spec_output_eps(spec_group(stv, mv, nodes@, dd));
    let ghost cund: Mach = spec_input_eps(spec_group(stv, mv, spec_underlying(nodes@), dd));
    let ghost ctgt: Mach = spec_input_eps(spec_compile(stv, mv, rule.target, dd));
    let ghost clft: Mach = spec_context(stv, mv, rule.left, dd);
    let ghost crgt: Mach = spec_context(stv, mv, rule.right, dd);
    let ghost cuniv: Mach = spec_sigma(stv.len() as int, 0);
    let ghost cbase: Mach = if drop_left {
        crate::compiler::spec_single(0)
    } else {
        spec_concat(crate::compiler::spec_single(0), clft)
    };
    let ghost cc: Mach = chain5(cbase, csrc, cund, crgt, cuniv, ctgt);
    let ghost sealedm: Mach = Mach {
        finals: cc.finals.update(cc.nstates() - 1, Some(0int)),
        ..cc
    };
    let ghost rm: Mach = spec_rule_chain(stv, mv, *rule, drop_left, dd);
    proof {
        assert(spec_rule_ok(*rule));
        assert(spec_underlying(nodes@) =~= nodes@.subrange(ustart as int, uend as int));
        assert(rm == spec_concat(crate::compiler::spec_single(0), sealedm));
        assert(msize(sealedm) == msize(cc));
        lemma_concat_msize(crate::compiler::spec_single(0), sealedm);
        lemma_chain_msize(cbase, csrc, cund, crgt, cuniv, ctgt);
        assert(msize(rm) >= msize(cc));
        assert(msize(cund) == msize(spec_group(stv, mv, spec_underlying(nodes@), dd)));
        assert(msize(csrc) == msize(spec_group(stv, mv, nodes@, dd)));
        assert(msize(ctgt) == msize(spec_compile(stv, mv, rule.target, dd)));
    }
    let mut und = Wfst::seed();
    let mut i: usize = ustart;
    while i < uend
        invariant
            ustart <= i <= uend,
            und.wf(),
            und.m() == spec_group(symt@, macros@, nodes@.subrange(ustart as int, i as int), MACRO_DEPTH as int),
        decreases uend - i,
    {
        proof {
            assert(decreases_to!(rule.source => *nodes));
            assert(decreases_to!(*nodes => nodes@));
            assert(decreases_to!(nodes@ => nodes@[i as int]));
        }
        let w = match node_fst(symt, macros, &nodes[i], MACRO_DEPTH) {
            Ok(w) => w,
            Err(e) => {
                proof {
                    let cm = spec_compile(stv, mv, nodes@[i as int], dd);
                    assert(msize(cm) > usize::MAX);
                    assert(nodes@.subrange(ustart as int, i + 1).drop_last() =~= nodes@.subrange(
                        ustart as int,
                        i as int,
                    ));
                    assert(nodes@.subrange(ustart as int, i + 1).last() == nodes@[i as int]);
                    lemma_concat_msize(
                        spec_group(stv, mv, nodes@.subrange(ustart as int, i as int), dd),
                        cm,
                    );
                    lemma_group_msize_mono(stv, mv, nodes@, ustart as int, i + 1, uend as int, dd);
                    assert(msize(rm) > usize::MAX);
                }
                return Err(e);
            },
        };
        if !und.try_concat_with(&w) {
            proof {
                lemma_concat_msize(und.m(), w.m());
                assert(nodes@.subrange(ustart as int, i + 1).drop_last() =~= nodes@.subrange(
                    ustart as int,
                    i as int,
                ));
                assert(nodes@.subrange(ustart as int, i + 1).last() == nodes@[i as int]);
                assert(spec_group(stv, mv, nodes@.subrange(ustart as int, i + 1), dd)
                    == spec_concat(und.m(), w.m()));
                lemma_group_msize_mono(stv, mv, nodes@, ustart as int, i + 1, uend as int, dd);
                assert(msize(rm) > usize::MAX);
            }
            return Err(FstError::TooLarge);
        }
        proof {
            assert(nodes@.subrange(ustart as int, i + 1).drop_last() =~= nodes@.subrange(
                ustart as int,
                i as int,
            ));
            assert(nodes@.subrange(ustart as int, i + 1).last() == nodes@[i as int]);
        }
        i = i + 1;
    }
    und.erase_input();
    let mut src = match node_fst(symt, macros, &rule.source, MACRO_DEPTH) {
        Ok(w) => w,
        Err(e) => {
            proof {
                assert(msize(spec_compile(stv, mv, rule.source, dd)) > usize::MAX);
                assert(spec_compile(stv, mv, rule.source, dd) == spec_group(stv, mv, nodes@, dd));
                assert(msize(rm) > usize::MAX);
            }
            return Err(e);
        },
    };
    src.erase_output();
    let mut tgt = match node_fst(symt, macros, &rule.target, MACRO_DEPTH) {
        Ok(w) => w,
        Err(e) => {
            proof {
                assert(msize(spec_compile(stv, mv, rule.target, dd)) > usize::MAX);
                assert(msize(rm) > usize::MAX);
            }
            return Err(e);
        },
    };
    tgt.erase_input();
    let lft = match context_fst(symt, macros, &rule.left) {
        Ok(w) => w,
        Err(e) => {
            proof {
                assert(msize(clft) > usize::MAX);
            }
            return Err(e);
        },
    };
    let rgt = match context_fst(symt, macros, &rule.right) {
        Ok(w) => w,
        Err(e) => {
            proof {
                assert(msize(crgt) > usize::MAX);
                assert(msize(rm) > usize::MAX);
            }
            return Err(e);
        },
    };
    let univ = Wfst::sigma(symt.len(), 0);
    let mut chain = single(0);
    if !drop_left {
        if !chain.try_concat_with(&lft) {
            proof {
                lemma_concat_msize(chain.m(), lft.m());
                assert(spec_concat(chain.m(), lft.m()) == cbase);
                assert(msize(rm) > usize::MAX);
            }
            return Err(FstError::TooLarge);
        }
    }
    proof {
        assert(chain.m() == cbase);
    }
    if !chain.try_concat_with(&src) {
        proof {
            lemma_concat_msize(chain.m(), src.m());
            assert(spec_concat(chain.m(), src.m()) == spec_concat(cbase, csrc));
            assert(msize(rm) > usize::MAX);
        }
        return Err(FstError::TooLarge);
    }
    if !chain.try_concat_with(&und) {
        proof {
            lemma_concat_msize(chain.m(), und.m());
            assert(spec_concat(chain.m(), und.m()) == spec_concat(spec_concat(cbase, csrc), cund));
            assert(msize(rm) > usize::MAX);
        }
        return Err(FstError::TooLarge);
    }
    if !chain.try_concat_with(&rgt) {
        proof {
            lemma_concat_msize(chain.m(), rgt.m());
            assert(spec_concat(chain.m(), rgt.m()) == spec_concat(
                spec_concat(spec_concat(cbase, csrc), cund),
                crgt,
            ));
            assert(msize(rm) > usize::MAX);
        }
        return Err(FstError::TooLarge);
    }
    if !chain.try_concat_with(&univ) {
        proof {
            lemma_concat_msize(chain.m(), univ.m());
            assert(spec_concat(chain.m(), univ.m()) == spec_concat(
                spec_concat(spec_concat(spec_concat(cbase, csrc), cund), crgt),
                cuniv,
            ));
            assert(msize(rm) > usize::MAX);
        }
        return Err(FstError::TooLarge);
    }
    if !chain.try_concat_with(&tgt) {
        proof {
            lemma_concat_msize(chain.m(), tgt.m());
            assert(spec_concat(chain.m(), tgt.m()) == cc);
            assert(msize(rm) > usize::MAX);
        }
        return Err(FstError::TooLarge);
    }
    let last: usize = chain.num_states() - 1;
    chain.set_final_cost(last, 0);
    proof {
        assert(chain.m() == sealedm);
    }
    let mut root = single(0);
    if !root.try_concat_with(&chain) {
        proof {
            assert(root.finals@.len() == 2 && root.trs@.len() == 1);
            lemma_concat_msize(root.m(), chain.m());
            assert(spec_concat(root.m(), chain.m()) == rm);
            assert(msize(rm) > usize::MAX);
        }
        return Err(FstError::TooLarge);
    }
    proof {
        assert(root.m() =~= spec_rule_chain(
            symt@,
            macros@,
            *rule,
            drop_left,
            MACRO_DEPTH as int,
        ));
    }
    Ok(root)
}

/// Assembles one rewrite rule into a transducer: consume the source between
/// its contexts, emit the underlying prefix in place and the target at the
/// end, then run the closing simplification pass. With `drop_left` the left
/// context is compiled but not put at the front of the chain, as the linear
/// pipeline requires. Fails with `BadRuleSource` exactly on an ill-shaped
/// source; `TooLarge` only where the assembled chain or the compiled left
/// context outgrows the index space; otherwise only a failure of the
/// algebra can stop it.
pub fn linearze_rule_fst(
    symt: &SymTab,
    macros: &MacroTable,
    rule: &RewriteRule,
    drop_left: bool,
) -> (r: Result<Wfst, FstError>)
    requires
        1 <= symt@.len() <= 0xffff_ffff,
    ensures
        !spec_rule_ok(*rule) <==> r == Err::<Wfst, FstError>(FstError::BadRuleSource),
        r matches Ok(w) ==> w.wf() && lang_eq(
            w.m(),
            spec_rule_chain(symt@, macros@, *rule, drop_left, MACRO_DEPTH as int),
        ),
        msize(spec_rule_chain(symt@, macros@, *rule, drop_left, MACRO_DEPTH as int))
            <= usize::MAX && msize(
            spec_context(symt@, macros@, rule.left, MACRO_DEPTH as int),
        ) <= usize::MAX ==> !(r == Err::<Wfst, FstError>(FstError::TooLarge)),
{
    let root = match assemble_rule_chain(symt, macros, rule, drop_left) {
        Ok(w) => w,
        Err(e) => {
            return Err(e);
        },
    };
    match optimize_fst(&root) {
        Some(w) => Ok(w),
        None => Err(FstError::Algebra),
    }
}

/// How many rule statements a script holds, counted from the left.
pub open spec fn spec_count_rules(sc: Seq<Statement>) -> int
    decreases sc.len(),
{
    if sc.len() == 0 {
        0
    } else {
        spec_count_rules(sc.drop_last()) + if sc.last() is Rule {
            1int
        } else {
            0int
        }
    }
}

/// Counts the rule statements of a script.
pub fn count_rules(script: &Vec<Statement>) -> (n: usize)
    ensures
        n as int == spec_count_rules(script@),
        n <= script@.len(),
{
    let ln: usize = script.len();
    let mut n: usize = 0;
    let mut k: usize = 0;
    while k < ln
        invariant
            0 <= k <= ln,
            ln == script@.len(),
            n <= k,
            n as int == spec_count_rules(script@.subrange(0, k as int)),
        decreases ln - k,
    {
        let isrule: bool = match &script[k] {
            Statement::Rule(_) => true,
            _ => false,
        };
        if isrule {
            n = n + 1;
        }
        proof {
            assert(script@.subrange(0, k + 1).drop_last() =~= script@.subrange(0, k as int));
            assert(script@.subrange(0, k + 1).last() == script@[k as int]);
        }
        k = k + 1;
    }
    proof {
        assert(script@.subrange(0, ln as int) =~= script@);
    }
    n
}

/// The macro table a left-to-right pass over the first `k` statements
/// builds, the first definition of a name winning.
pub open spec fn macros_upto(sc: Seq<Statement>, k: int) -> Seq<(Seq<char>, RegexAST)>
    decreases k,
{
    if k <= 0 {
        Seq::empty()
    } else {
        let m = macros_upto(sc, k - 1);
        match sc[k - 1] {
            Statement::MacroDef(nm, d) => if spec_macro(m, nm@, 0) is None {
                m + seq![(nm@, d)]
            } else {
                m
            },
            _ => m,
        }
    }
}

/// Whether the union of the rules among the first `k` statements, each
/// assembled with full context under the macros defined before it, maps `i`
/// to `o` within `c`.
pub open spec fn script_aw(
    st: Seq<Seq<char>>,
    sc: Seq<Statement>,
    k: int,
    i: Seq<int>,
    o: Seq<int>,
    c: int,
) -> bool
    decreases k,
{
    if k <= 0 {
        false
    } else {
        script_aw(st, sc, k - 1, i, o, c) || (match sc[k - 1] {
            Statement::Rule(rule) => spec_rule_ok(rule) && aw(
                spec_rule_chain(st, macros_upto(sc, k - 1), rule, false, MACRO_DEPTH as int),
                i,
                o,
                c,
            ),
            _ => false,
        })
    }
}

/// The dead machine accepts nothing.
pub proof fn lemma_dead_lang()
    ensures
        forall|i: Seq<int>, o: Seq<int>, c: int| !aw(spec_dead(), i, o, c),
{
    assert forall|i: Seq<int>, o: Seq<int>, c: int| !aw(spec_dead(), i, o, c) by {
        if aw(spec_dead(), i, o, c) {
            let p = choose|p: Seq<int>| accepting(spec_dead(), p, i, o, c);
            if p.len() == 0 {
                assert(spec_dead().finals[0] is None);
            } else {
                assert(!(0 <= p[0] < 0));
            }
        }
    }
}

/// Compiles one script into the union of its rules' transducers, each rule
/// assembled with full context under the macros defined before it. A script
/// without rules yields the machine that accepts nothing.
#[verifier::loop_isolation(false)]
pub fn compile_script(symt: &SymTab, script: Vec<Statement>) -> (r: Result<Wfst, FstError>)
    requires
        1 <= symt@.len() <= 0xffff_ffff,
    ensures
        r matches Ok(w) ==> w.wf() && forall|i: Seq<int>, o: Seq<int>, c: int|
            aw(w.m(), i, o, c) <==> script_aw(symt@, script@, script@.len() as int, i, o, c),
        !rules_ok(script@, script@.len() as int) ==> r is Err,
        r == Err::<Wfst, FstError>(FstError::BadRuleSource) ==> !rules_ok(
            script@,
            script@.len() as int,
        ),
{
    let ghost sc0: Seq<Statement> = script@;
    let mut script = script;
    let mut macros = MacroTable::new();
    let mut acc = Wfst::dead();
    let n: usize = script.len();
    let mut k: usize = 0;
    proof {
        lemma_dead_lang();
    }
    while k < n
        invariant
            0 <= k <= n,
            n == sc0.len(),
            script@ =~= sc0.subrange(k as int, n as int),
            macros@ == macros_upto(sc0, k as int),
            rules_ok(sc0, k as int),
            acc.wf(),
            forall|i: Seq<int>, o: Seq<int>, c: int|
                aw(acc.m(), i, o, c) <==> script_aw(symt@, sc0, k as int, i, o, c),
        decreases n - k,
    {
        let st: Statement = script.remove(0);
        proof {
            assert(st == sc0[k as int]);
            assert(script@ =~= sc0.subrange(k + 1, n as int));
        }
        match st {
            Statement::Comment => {
                proof {
                    assert(macros_upto(sc0, k + 1) == macros_upto(sc0, k as int));
                    assert(forall|i: Seq<int>, o: Seq<int>, c: int|
                        #![auto]
                        script_aw(symt@, sc0, k + 1, i, o, c) <==> script_aw(
                            symt@,
                            sc0,
                            k as int,
                            i,
                            o,
                            c,
                        ));
                }
            },
            Statement::MacroDef(name, def) => {
                let _ = macros.insert_first_wins(name, def);
                proof {
                    assert(macros@ =~= macros_upto(sc0, k + 1));
                    assert(forall|i: Seq<int>, o: Seq<int>, c: int|
                        #![auto]
                        script_aw(symt@, sc0, k + 1, i, o, c) <==> script_aw(
                            symt@,
                            sc0,
                            k as int,
                            i,
                            o,
                            c,
                        ));
                }
            },
            Statement::Rule(rule) => {
                let ghost acc0: Mach = acc.m();
                let rfst = match linearze_rule_fst(symt, &macros, &rule, false) {
                    Ok(w) => w,
                    Err(e) => {
                        proof {
                            if e == FstError::BadRuleSource {
                                if rules_ok(sc0, n as int) {
                                    lemma_rules_ok_at(sc0, k as int, n as int);
                                }
                            }
                        }
                        return Err(e);
                    },
                };
                if !acc.try_union_with(&rfst) {
                    return Err(FstError::TooLarge);
                }
                proof {
                    lemma_union_lang(acc0, rfst.m());
                    assert(macros_upto(sc0, k + 1) == macros_upto(sc0, k as int));
                    assert(sc0[k as int] == Statement::Rule(rule));
                    assert(spec_rule_ok(rule));
                    assert forall|i: Seq<int>, o: Seq<int>, c: int|
                        aw(acc.m(), i, o, c) <==> script_aw(symt@, sc0, k + 1, i, o, c) by {
                        assert(aw(acc.m(), i, o, c) <==> aw(acc0, i, o, c) || aw(
                            rfst.m(),
                            i,
                            o,
                            c,
                        ));
                        assert(aw(rfst.m(), i, o, c) <==> aw(
                            spec_rule_chain(
                                symt@,
                                macros_upto(sc0, k as int),
                                rule,
                                false,
                                MACRO_DEPTH as int,
                            ),
                            i,
                            o,
                            c,
                        ));
                    }
                }
            },
        }
        k = k + 1;
    }
    Ok(acc)
}

/// The fragment a macro reference compiles to: the referenced definition
/// under the seed, or the bare double seed when the name is unbound or the
/// resolution depth is spent.
pub open spec fn spec_macro_frag(
    st: Seq<Seq<char>>,
    mac: Seq<(Seq<char>, RegexAST)>,
    name: Seq<char>,
    depth: int,
) -> Mach {
    if depth > 0 {
        match spec_macro(mac, name, 0) {
            Some(def) => spec_concat(spec_seed(), spec_compile(st, mac, def, depth - 1)),
            None => spec_concat(spec_seed(), spec_seed()),
        }
    } else {
        spec_concat(spec_seed(), spec_seed())
    }
}

/// The compiled segment head: a boundary followed by one segment.
pub open spec fn spec_seg_first(st: Seq<Seq<char>>, mac: Seq<(Seq<char>, RegexAST)>, depth: int) -> Mach {
    spec_concat(
        spec_concat(spec_seed(), spec_compile(st, mac, RegexAST::Boundary, depth)),
        spec_macro_frag(st, mac, "segment"@, depth),
    )
}

/// The compiled tone-bearing segment: a tone followed by one segment.
pub open spec fn spec_tone_seg(st: Seq<Seq<char>>, mac: Seq<(Seq<char>, RegexAST)>, depth: int) -> Mach {
    spec_concat(
        spec_concat(spec_seed(), spec_macro_frag(st, mac, "tone"@, depth)),
        spec_macro_frag(st, mac, "segment"@, depth),
    )
}

/// Whether the union of sigma-star with the rules among the first `k`
/// statements, each assembled with its left context dropped, maps `i` to `o`
/// within `c`.
pub open spec fn linear_union_aw(
    st: Seq<Seq<char>>,
    sc: Seq<Statement>,
    k: int,
    i: Seq<int>,
    o: Seq<int>,
    c: int,
) -> bool
    decreases k,
{
    if k <= 0 {
        aw(spec_sigma(st.len() as int, 0), i, o, c)
    } else {
        linear_union_aw(st, sc, k - 1, i, o, c) || (match sc[k - 1] {
            Statement::Rule(rule) => spec_rule_ok(rule) && aw(
                spec_rule_chain(st, macros_upto(sc, k - 1), rule, true, MACRO_DEPTH as int),
                i,
                o,
                c,
            ),
            _ => false,
        })
    }
}

/// The segment head with `k` tone-bearing segments concatenated on.
pub open spec fn spec_tones(seg: Mach, tone: Mach, k: int) -> Mach
    decreases k,
{
    if k <= 0 {
        seg
    } else {
        spec_concat(spec_tones(seg, tone, k - 1), tone)
    }
}

/// Folds a whole script into one relation: the rules are unioned over
/// sigma-star with their left contexts dropped, the union is determinized in
/// functional mode, and the fixed number of context-composition rounds is
/// applied. The result's language is pinned to the unioned rule language
/// `u` and the determinized relation `det`: when `u` is functional, `det`
/// is equivalent to it, and the result is the composition chain over `det`.
#[verifier::loop_isolation(false)]
pub fn compile_as_linear(symt: &SymTab, script: Vec<Statement>) -> (r: Result<Wfst, FstError>)
    requires
        1 <= symt@.len() <= 0xffff_ffff,
    ensures
        !rules_ok(script@, script@.len() as int) ==> r is Err,
        r == Err::<Wfst, FstError>(FstError::BadRuleSource) ==> !rules_ok(
            script@,
            script@.len() as int,
        ),
        r matches Ok(w) ==> w.wf() && exists|u: Mach, det: Mach|
            {
                &&& #[trigger] u.wf()
                &&& #[trigger] det.wf()
                &&& (forall|i: Seq<int>, o: Seq<int>, c: int|
                    #![auto]
                    aw(u, i, o, c) <==> linear_union_aw(
                        symt@,
                        script@,
                        script@.len() as int,
                        i,
                        o,
                        c,
                    ))
                &&& (functional(u) ==> lang_eq(det, u))
                &&& (exists|steps: Seq<Mach>|
                    {
                        &&& #[trigger] steps.len() == CONTEXT_POSITIONS + 1
                        &&& (forall|x: int| 0 <= x < steps.len() ==> (#[trigger] steps[x]).wf())
                        &&& steps[0] == spec_sigma(symt@.len() as int, 0)
                        &&& (forall|x: int, i: Seq<int>, o: Seq<int>, c: int|
                            #![auto]
                            0 <= x < CONTEXT_POSITIONS ==> (aw(steps[x + 1], i, o, c)
                                <==> comp_aw(
                                steps[x],
                                spec_concat(
                                    spec_tones(
                                        spec_seg_first(
                                            symt@,
                                            macros_upto(script@, script@.len() as int),
                                            MACRO_DEPTH as int,
                                        ),
                                        spec_tone_seg(
                                            symt@,
                                            macros_upto(script@, script@.len() as int),
                                            MACRO_DEPTH as int,
                                        ),
                                        x,
                                    ),
                                    det,
                                ),
                                i,
                                o,
                                c,
                            )))
                        &&& lang_eq(w.m(), steps[CONTEXT_POSITIONS as int])
                    })
            },
{
    let ghost sc0: Seq<Statement> = script@;
    let mut script = script;
    let mut macros = MacroTable::new();
    let mut base = Wfst::sigma(symt.len(), 0);
    let n: usize = script.len();
    let mut k: usize = 0;
    while k < n
        invariant
            0 <= k <= n,
            n == sc0.len(),
            script@ =~= sc0.subrange(k as int, n as int),
            macros@ == macros_upto(sc0, k as int),
            rules_ok(sc0, k as int),
            base.wf(),
            forall|i: Seq<int>, o: Seq<int>, c: int|
                #![auto]
                aw(base.m(), i, o, c) <==> linear_union_aw(symt@, sc0, k as int, i, o, c),
        decreases n - k,
    {
        let st: Statement = script.remove(0);
        proof {
            assert(st == sc0[k as int]);
            assert(script@ =~= sc0.subrange(k + 1, n as int));
        }
        match st {
            Statement::Comment => {
                proof {
                    assert(macros_upto(sc0, k + 1) == macros_upto(sc0, k as int));
                    assert(forall|i: Seq<int>, o: Seq<int>, c: int|
                        #![auto]
                        linear_union_aw(symt@, sc0, k + 1, i, o, c) <==> linear_union_aw(
                            symt@,
                            sc0,
                            k as int,
                            i,
                            o,
                            c,
                        ));
                }
            },
            Statement::MacroDef(name, def) => {
                let _ = macros.insert_first_wins(name, def);
                proof {
                    assert(macros@ =~= macros_upto(sc0, k + 1));
                    assert(forall|i: Seq<int>, o: Seq<int>, c: int|
                        #![auto]
                        linear_union_aw(symt@, sc0, k + 1, i, o, c) <==> linear_union_aw(
                            symt@,
                            sc0,
                            k as int,
                            i,
                            o,
                            c,
                        ));
                }
            },
            Statement::Rule(rule) => {
                let ghost baseprev: Mach = base.m();
                let fst2 = match linearze_rule_fst(symt, &macros, &rule, true) {
                    Ok(w) => w,
                    Err(e) => {
                        proof {
                            if e == FstError::BadRuleSource {
                                if rules_ok(sc0, n as int) {
                                    lemma_rules_ok_at(sc0, k as int, n as int);
                                }
                            }
                        }
                        return Err(e);
                    },
                };
                let base2 = match optimize_fst(&base) {
                    Some(b) => b,
                    None => {
                        return Err(FstError::Algebra);
                    },
                };
                let ghost b0: Mach = base2.m();
                base = base2;
                if !base.try_union_with(&fst2) {
                    return Err(FstError::TooLarge);
                }
                proof {
                    lemma_union_lang(b0, fst2.m());
                    assert(macros_upto(sc0, k + 1) == macros_upto(sc0, k as int));
                    assert(sc0[k as int] == Statement::Rule(rule));
                    assert(spec_rule_ok(rule));
                    assert forall|i: Seq<int>, o: Seq<int>, c: int|
                        aw(base.m(), i, o, c) <==> linear_union_aw(symt@, sc0, k + 1, i, o, c) by {
                        assert(aw(base.m(), i, o, c) <==> aw(b0, i, o, c) || aw(fst2.m(), i, o, c));
                        assert(aw(b0, i, o, c) <==> aw(baseprev, i, o, c));
                        assert(aw(fst2.m(), i, o, c) <==> aw(
                            spec_rule_chain(
                                symt@,
                                macros_upto(sc0, k as int),
                                rule,
                                true,
                                MACRO_DEPTH as int,
                            ),
                            i,
                            o,
                            c,
                        ));
                    }
                }
            },
        }
        k = k + 1;
    }
    let ghost u: Mach = base.m();
    let det = match determinize_functional(&base) {
        Some(d) => d,
        None => {
            return Err(FstError::Algebra);
        },
    };
    let seg_node = RegexAST::Group(
        vec![RegexAST::Boundary, RegexAST::Macro("segment".to_owned())],
    );
    let tone_node = RegexAST::Group(
        vec![RegexAST::Macro("tone".to_owned()), RegexAST::Macro("segment".to_owned())],
    );
    let ghost segm: Mach = spec_seg_first(symt@, macros_upto(sc0, n as int), MACRO_DEPTH as int);
    let ghost tonem: Mach = spec_tone_seg(symt@, macros_upto(sc0, n as int), MACRO_DEPTH as int);
    let ghost sigm: Mach = spec_sigma(symt@.len() as int, 0);
    proof {
        let dd: int = MACRO_DEPTH as int;
        let vb: Seq<RegexAST> = seg_node->Group_0@;
        assert(vb.len() == 2 && vb[0] == RegexAST::Boundary && vb[1] is Macro && vb[1]->Macro_0@
            == "segment"@);
        assert(vb.drop_last() =~= seq![vb[0]]);
        assert(seq![vb[0]].drop_last() =~= Seq::<RegexAST>::empty());
        assert(seq![vb[0]].last() == vb[0]);
        assert(spec_group(symt@, macros@, Seq::<RegexAST>::empty(), dd) == spec_seed());
        assert(spec_group(symt@, macros@, seq![vb[0]], dd) == spec_concat(
            spec_seed(),
            spec_compile(symt@, macros@, vb[0], dd),
        ));
        assert(spec_compile(symt@, macros@, vb[1], dd) == spec_macro_frag(
            symt@,
            macros@,
            "segment"@,
            dd,
        ));
        assert(vb.last() == vb[1]);
        assert(spec_group(symt@, macros@, vb, dd) == spec_concat(
            spec_group(symt@, macros@, vb.drop_last(), dd),
            spec_compile(symt@, macros@, vb.last(), dd),
        ));
        assert(spec_compile(symt@, macros@, seg_node, dd) == spec_group(symt@, macros@, vb, dd));
        assert(spec_compile(symt@, macros@, seg_node, dd) == segm);
        let wb: Seq<RegexAST> = tone_node->Group_0@;
        assert(wb.len() == 2 && wb[0] is Macro && wb[0]->Macro_0@ == "tone"@ && wb[1] is Macro
            && wb[1]->Macro_0@ == "segment"@);
        assert(wb.drop_last() =~= seq![wb[0]]);
        assert(seq![wb[0]].drop_last() =~= Seq::<RegexAST>::empty());
        assert(seq![wb[0]].last() == wb[0]);
        assert(spec_group(symt@, macros@, seq![wb[0]], dd) == spec_concat(
            spec_seed(),
            spec_compile(symt@, macros@, wb[0], dd),
        ));
        assert(spec_compile(symt@, macros@, wb[0], dd) == spec_macro_frag(
            symt@,
            macros@,
            "tone"@,
            dd,
        ));
        assert(spec_compile(symt@, macros@, wb[1], dd) == spec_macro_frag(
            symt@,
            macros@,
            "segment"@,
            dd,
        ));
        assert(wb.last() == wb[1]);
        assert(spec_group(symt@, macros@, wb, dd) == spec_concat(
            spec_group(symt@, macros@, wb.drop_last(), dd),
            spec_compile(symt@, macros@, wb.last(), dd),
        ));
        assert(spec_compile(symt@, macros@, tone_node, dd) == spec_group(symt@, macros@, wb, dd));
        assert(spec_compile(symt@, macros@, tone_node, dd) == tonem);
    }
    let mut fst = Wfst::sigma(symt.len(), 0);
    let ghost mut steps: Seq<Mach> = seq![fst.m()];
    let mut it: u64 = 0;
    while it < CONTEXT_POSITIONS
        invariant
            0 <= it <= CONTEXT_POSITIONS,
            fst.wf(),
            det.wf(),
            macros@ == macros_upto(sc0, n as int),
            steps.len() == it + 1,
            steps[0] == sigm,
            sigm == spec_sigma(symt@.len() as int, 0),
            forall|x: int| 0 <= x < steps.len() ==> (#[trigger] steps[x]).wf(),
            fst.m() == steps.last(),
            forall|x: int, i: Seq<int>, o: Seq<int>, c: int|
                #![auto]
                0 <= x < it ==> (aw(steps[x + 1], i, o, c) <==> comp_aw(
                    steps[x],
                    spec_concat(spec_tones(segm, tonem, x), det.m()),
                    i,
                    o,
                    c,
                )),
        decreases CONTEXT_POSITIONS - it,
    {
        let mut fst2 = match node_fst(symt, &macros, &seg_node, MACRO_DEPTH) {
            Ok(w) => w,
            Err(e) => {
                return Err(e);
            },
        };
        let mut t: u64 = 0;
        while t < it
            invariant
                0 <= t <= it,
                fst2.wf(),
                macros@ == macros_upto(sc0, n as int),
                segm == spec_seg_first(symt@, macros_upto(sc0, n as int), MACRO_DEPTH as int),
                tonem == spec_tone_seg(symt@, macros_upto(sc0, n as int), MACRO_DEPTH as int),
                fst2.m() == spec_tones(segm, tonem, t as int),
            decreases it - t,
        {
            let tn = match node_fst(symt, &macros, &tone_node, MACRO_DEPTH) {
                Ok(w) => w,
                Err(e) => {
                    return Err(e);
                },
            };
            if !fst2.try_concat_with(&tn) {
                return Err(FstError::TooLarge);
            }
            t = t + 1;
        }
        if !fst2.try_concat_with(&det) {
            return Err(FstError::TooLarge);
        }
        let ghost f0: Mach = fst.m();
        let composed = match compose_fst(&fst, &fst2) {
            Some(x) => x,
            None => {
                return Err(FstError::Algebra);
            },
        };
        fst = composed;
        let opt = match optimize_fst(&fst) {
            Some(x) => x,
            None => {
                return Err(FstError::Algebra);
            },
        };
        fst = opt;
        let mini = match minimize_fst(&fst, false) {
            Some(x) => x,
            None => {
                return Err(FstError::Algebra);
            },
        };
        fst = mini;
        proof {
            assert(fst2.m() == spec_concat(spec_tones(segm, tonem, it as int), det.m()));
            steps = steps + seq![fst.m()];
            assert(steps.last() == fst.m());
            assert(steps[it as int] == f0);
            assert forall|x: int, i: Seq<int>, o: Seq<int>, c: int|
                #![auto]
                0 <= x < it + 1 implies (aw(steps[x + 1], i, o, c) <==> comp_aw(
                steps[x],
                spec_concat(spec_tones(segm, tonem, x), det.m()),
                i,
                o,
                c,
            )) by {
                if x < it {
                    assert(steps[x] == steps.drop_last()[x]);
                    assert(steps[x + 1] == steps.drop_last()[x + 1]);
                }
            }
        }
        it = it + 1;
    }
    proof {
        assert(u.wf());
        assert(det.m().wf());
    }
    Ok(fst)
}

/// `m` with `k` filler steps concatenated on.
pub open spec fn spec_pad(m: Mach, k: int) -> Mach
    decreases k,
{
    if k <= 0 {
        m
    } else {
        spec_concat(spec_pad(m, k - 1), spec_filler(FILLER_COST as int))
    }
}

/// One step of the union builder: whichever of the accumulator and the new
/// file automaton has seen fewer rule applications is padded up to the
/// other's level before the union.
pub open spec fn spec_union_step(acc: Mach, level: int, w: Mach, cnt: int) -> (Mach, int) {
    if cnt > level {
        (spec_union(spec_pad(acc, cnt - level), w), cnt)
    } else {
        (spec_union(acc, spec_pad(w, level - cnt)), level)
    }
}

/// The padded union of the first `j` file automata over the accumulator.
pub open spec fn spec_union_fold(
    acc: Mach,
    level: int,
    ws: Seq<Mach>,
    counts: Seq<int>,
    j: int,
) -> (Mach, int)
    decreases j,
{
    if j <= 0 {
        (acc, level)
    } else {
        let prev = spec_union_fold(acc, level, ws, counts, j - 1);
        spec_union_step(prev.0, prev.1, ws[j - 1], counts[j - 1])
    }
}

/// The padded union over the first `j` automata ignores what stands beyond
/// them.
pub proof fn lemma_union_fold_extend(
    acc: Mach,
    level: int,
    ws: Seq<Mach>,
    w: Mach,
    counts: Seq<int>,
    j: int,
)
    requires
        0 <= j <= ws.len(),
    ensures
        spec_union_fold(acc, level, ws + seq![w], counts, j) == spec_union_fold(
            acc,
            level,
            ws,
            counts,
            j,
        ),
    decreases j,
{
    if j > 0 {
        lemma_union_fold_extend(acc, level, ws, w, counts, j - 1);
        assert((ws + seq![w])[j - 1] == ws[j - 1]);
    }
}

/// Unions whole rule files over a weighted sigma-star accumulator, padding
/// with constant-cost filler steps so that files with different rule counts
/// stay weight-commensurable, and removes epsilon transitions at the end.
/// The result's language is that of the padded union of file automata whose
/// languages are their scripts' rule unions.
#[verifier::loop_isolation(false)]
pub fn compile_union(symt: &SymTab, files: Vec<Vec<Statement>>) -> (r: Result<Wfst, FstError>)
    requires
        1 <= symt@.len() <= 0xffff_ffff,
    ensures
        !files_rules_ok(files@, files@.len() as int) ==> r is Err,
        r == Err::<Wfst, FstError>(FstError::BadRuleSource) ==> !files_rules_ok(
            files@,
            files@.len() as int,
        ),
        r matches Ok(w) ==> w.wf() && exists|ws: Seq<Mach>|
            {
                &&& #[trigger] ws.len() == files@.len()
                &&& (forall|x: int| 0 <= x < ws.len() ==> (#[trigger] ws[x]).wf())
                &&& (forall|x: int, i: Seq<int>, o: Seq<int>, c: int|
                    #![auto]
                    0 <= x < ws.len() ==> (aw(ws[x], i, o, c) <==> script_aw(
                        symt@,
                        files@[x]@,
                        files@[x]@.len() as int,
                        i,
                        o,
                        c,
                    )))
                &&& lang_eq(
                    w.m(),
                    spec_union_fold(
                        spec_sigma(symt@.len() as int, FILLER_COST as int),
                        1,
                        ws,
                        Seq::new(files@.len(), |x: int| spec_count_rules(files@[x]@)),
                        files@.len() as int,
                    ).0,
                )
            },
{
    let ghost fs0: Seq<Vec<Statement>> = files@;
    let ghost counts: Seq<int> = Seq::new(fs0.len(), |x: int| spec_count_rules(fs0[x]@));
    let mut files = files;
    let mut fst = Wfst::sigma(symt.len(), FILLER_COST);
    let mut level: usize = 1;
    let ghost mut ws: Seq<Mach> = Seq::empty();
    let nf: usize = files.len();
    let mut j: usize = 0;
    while j < nf
        invariant
            0 <= j <= nf,
            nf == fs0.len(),
            files@ =~= fs0.subrange(j as int, nf as int),
            fst.wf(),
            1 <= level,
            files_rules_ok(fs0, j as int),
            ws.len() == j,
            forall|x: int| 0 <= x < j ==> (#[trigger] ws[x]).wf(),
            forall|x: int, i: Seq<int>, o: Seq<int>, c: int|
                #![auto]
                0 <= x < j ==> (aw(ws[x], i, o, c) <==> script_aw(
                    symt@,
                    fs0[x]@,
                    fs0[x]@.len() as int,
                    i,
                    o,
                    c,
                )),
            (fst.m(), level as int) == spec_union_fold(
                spec_sigma(symt@.len() as int, FILLER_COST as int),
                1,
                ws,
                counts,
                j as int,
            ),
        decreases nf - j,
    {
        let file: Vec<Statement> = files.remove(0);
        proof {
            assert(file == fs0[j as int]);
            assert(files@ =~= fs0.subrange(j + 1, nf as int));
        }
        let nrules: usize = count_rules(&file);
        let ghost filev: Seq<Statement> = file@;
        let mut oth = match compile_script(symt, file) {
            Ok(w) => w,
            Err(e) => {
                proof {
                    if e == FstError::BadRuleSource {
                        if files_rules_ok(fs0, nf as int) {
                            lemma_files_rules_ok_at(fs0, j as int, nf as int);
                        }
                    }
                }
                return Err(e);
            },
        };
        let ghost wspre: Seq<Mach> = ws;
        proof {
            ws = ws + seq![oth.m()];
            assert(counts[j as int] == spec_count_rules(filev));
        }
        let ghost prevfold: (Mach, int) = (fst.m(), level as int);
        if nrules > level {
            let ghost padbase: Mach = fst.m();
            let ghost lv0: int = level as int;
            while level < nrules
                invariant
                    lv0 <= level <= nrules,
                    fst.wf(),
                    fst.m() == spec_pad(padbase, level - lv0),
                decreases nrules - level,
            {
                let f = Wfst::filler(FILLER_COST);
                if !fst.try_concat_with(&f) {
                    return Err(FstError::TooLarge);
                }
                level = level + 1;
            }
        } else {
            let pads: usize = level - nrules;
            let ghost othbase: Mach = oth.m();
            let mut p: usize = 0;
            while p < pads
                invariant
                    0 <= p <= pads,
                    oth.wf(),
                    oth.m() == spec_pad(othbase, p as int),
                decreases pads - p,
            {
                let f = Wfst::filler(FILLER_COST);
                if !oth.try_concat_with(&f) {
                    return Err(FstError::TooLarge);
                }
                p = p + 1;
            }
        }
        if !fst.try_union_with(&oth) {
            return Err(FstError::TooLarge);
        }
        proof {
            let acc0 = spec_sigma(symt@.len() as int, FILLER_COST as int);
            assert(wspre + seq![ws[j as int]] =~= ws);
            lemma_union_fold_extend(acc0, 1, wspre, ws[j as int], counts, j as int);
            assert(spec_union_fold(acc0, 1, wspre, counts, j as int) == prevfold);
            assert(spec_union_fold(acc0, 1, ws, counts, j as int) == prevfold);
            assert(counts[j as int] == nrules as int);
            assert((fst.m(), level as int) == spec_union_step(
                prevfold.0,
                prevfold.1,
                ws[j as int],
                counts[j as int],
            ));
            assert((fst.m(), level as int) == spec_union_fold(acc0, 1, ws, counts, j + 1));
        }
        j = j + 1;
    }
    match remove_epsilons(&fst) {
        Some(w) => {
            proof {
                assert(ws.len() == fs0.len());
            }
            Ok(w)
        },
        None => Err(FstError::Algebra),
    }
}

} // verus!
