//! The node compiler: the recursive translation of one pattern node into an
//! automaton fragment, mirrored exactly by the specification-level compiler
//! `spec_compile`.

use vstd::prelude::*;
use crate::ast::RegexAST;
use crate::machine::GTr;
use crate::machine::Mach;
use crate::machine::Trans;
use crate::machine::Wfst;
use crate::machine::spec_closure_plus;
use crate::machine::spec_closure_star;
use crate::machine::lemma_closure_msize;
use crate::machine::lemma_concat_msize;
use crate::machine::lemma_union_msize;
use crate::machine::msize;
use crate::machine::spec_concat;
use crate::machine::spec_dead;
use crate::machine::spec_optional;
use crate::machine::spec_seed;
use crate::machine::spec_union;
use crate::tables::MacroTable;
use crate::tables::SymTab;
use crate::tables::spec_label;
use crate::tables::spec_macro;

verus! {

/// How many nested macro references are resolved before a reference is
/// treated as undefined; guards against a macro defined through itself. A
/// reference nested deeper than this silently compiles as `Epsilon` does,
/// where running the definitions out would not have terminated.
pub const MACRO_DEPTH: u64 = 64;

/// Why a compilation step could not produce an automaton.
#[derive(Clone, Copy, Debug, PartialEq, Eq, Structural)]
pub enum FstError {
    /// An automaton outgrew the index space.
    TooLarge,
    /// A rule's source pattern is not a group, or its arrow token stands
    /// first, so no underlying prefix exists.
    BadRuleSource,
    /// An operation of the automaton algebra failed.
    Algebra,
}

/// The two-state fragment consuming and emitting one label at cost zero.
pub open spec fn spec_single(l: int) -> Mach {
    Mach {
        start: 0,
        finals: seq![None, Some(0int)],
        trs: seq![GTr { from: 0, il: l, ol: l, cost: 0, to: 1 }],
    }
}

/// One arc per symbol of `syms` below `upto` that the table holds, in order;
/// unknown symbols contribute nothing.
pub open spec fn class_arcs(st: Seq<Seq<char>>, syms: Seq<Seq<char>>, upto: int) -> Seq<GTr>
    decreases upto,
{
    if upto <= 0 {
        Seq::empty()
    } else {
        class_arcs(st, syms, upto - 1) + match spec_label(st, syms[upto - 1], 0) {
            Some(l) => seq![GTr { from: 0, il: l, ol: l, cost: 0, to: 1 }],
            None => Seq::empty(),
        }
    }
}

/// Whether `s` occurs in `syms`.
pub open spec fn sym_in(syms: Seq<Seq<char>>, s: Seq<char>) -> bool {
    exists|i: int| 0 <= i < syms.len() && syms[i] == s
}

/// One arc per label `1 <= l < upto` whose symbol is neither excluded, nor
/// the boundary marker; epsilon is excluded by the range itself.
pub open spec fn comp_arcs(st: Seq<Seq<char>>, excl: Seq<Seq<char>>, upto: int) -> Seq<GTr>
    decreases upto,
{
    if upto <= 1 {
        Seq::empty()
    } else {
        comp_arcs(st, excl, upto - 1) + if st[upto - 1] != seq!['#'] && !sym_in(
            excl,
            st[upto - 1],
        ) {
            seq![GTr { from: 0, il: upto - 1, ol: upto - 1, cost: 0, to: 1 }]
        } else {
            Seq::empty()
        }
    }
}

/// The class fragment: entry state 0, exit state 1.
pub open spec fn spec_class_frag(st: Seq<Seq<char>>, syms: Seq<Seq<char>>) -> Mach {
    Mach { start: 0, finals: seq![None, Some(0int)], trs: class_arcs(st, syms, syms.len() as int) }
}

/// The complement-class fragment: entry state 0, exit state 1.
pub open spec fn spec_comp_frag(st: Seq<Seq<char>>, excl: Seq<Seq<char>>) -> Mach {
    Mach { start: 0, finals: seq![None, Some(0int)], trs: comp_arcs(st, excl, st.len() as int) }
}

/// The view of a vector of symbols.
pub open spec fn syms_view(v: Seq<String>) -> Seq<Seq<char>> {
    v.map(|i: int, s: String| s@)
}

/// The automaton fragment of one pattern node, as a function of the symbol
/// table, the macro table and the macro-resolution depth left. Every node
/// yields a fragment: an unknown character falls back to epsilon, an unknown
/// or too-deep macro reference compiles as `Epsilon` does.
pub open spec fn spec_compile(
    st: Seq<Seq<char>>,
    mac: Seq<(Seq<char>, RegexAST)>,
    node: RegexAST,
    depth: int,
) -> Mach
    decreases depth, node, 1int,
{
    match node {
        RegexAST::Epsilon => spec_seed(),
        RegexAST::Comment => spec_seed(),
        RegexAST::Boundary => spec_concat(
            spec_seed(),
            spec_single(
                match spec_label(st, seq!['#'], 0) {
                    Some(l) => l,
                    None => 1,
                },
            ),
        ),
        RegexAST::Char(c) => spec_concat(
            spec_seed(),
            spec_single(
                match spec_label(st, seq![c], 0) {
                    Some(l) => l,
                    None => 0,
                },
            ),
        ),
        RegexAST::Group(v) => spec_group(st, mac, v@, depth),
        RegexAST::Disjunction(v) => if v@.len() == 0 {
            spec_concat(spec_seed(), spec_dead())
        } else {
            spec_concat(spec_seed(), spec_disj(st, mac, v@, depth))
        },
        RegexAST::Class(syms) => spec_concat(spec_seed(), spec_class_frag(st, syms_view(syms@))),
        RegexAST::ClassComplement(syms) => spec_concat(
            spec_seed(),
            spec_comp_frag(st, syms_view(syms@)),
        ),
        RegexAST::Star(n) => spec_concat(spec_seed(), spec_closure_star(spec_compile(st, mac, *n, depth))),
        RegexAST::Plus(n) => spec_concat(spec_seed(), spec_closure_plus(spec_compile(st, mac, *n, depth))),
        RegexAST::Opt(n) => spec_concat(spec_seed(), spec_optional(spec_compile(st, mac, *n, depth))),
        RegexAST::Macro(name) => if depth > 0 {
            match spec_macro(mac, name@, 0) {
                Some(def) => spec_concat(spec_seed(), spec_compile(st, mac, def, depth - 1)),
                None => spec_concat(spec_seed(), spec_seed()),
            }
        } else {
            spec_concat(spec_seed(), spec_seed())
        },
    }
}

/// A group: the seed fragment with each member's fragment concatenated on,
/// left to right.
pub open spec fn spec_group(
    st: Seq<Seq<char>>,
    mac: Seq<(Seq<char>, RegexAST)>,
    nodes: Seq<RegexAST>,
    depth: int,
) -> Mach
    decreases depth, nodes, 0int,
{
    if nodes.len() == 0 {
        spec_seed()
    } else {
        spec_concat(
            spec_group(st, mac, nodes.drop_last(), depth),
            spec_compile(st, mac, nodes.last(), depth),
        )
    }
}

/// A disjunction of one or more members: their fragments united, left to
/// right.
pub open spec fn spec_disj(
    st: Seq<Seq<char>>,
    mac: Seq<(Seq<char>, RegexAST)>,
    nodes: Seq<RegexAST>,
    depth: int,
) -> Mach
    decreases depth, nodes, 0int,
{
    if nodes.len() == 0 {
        spec_seed()
    } else if nodes.len() == 1 {
        spec_compile(st, mac, nodes[0], depth)
    } else {
        spec_union(
            spec_disj(st, mac, nodes.drop_last(), depth),
            spec_compile(st, mac, nodes.last(), depth),
        )
    }
}

/// A longer slice of a group compiles to a machine at least as large.
pub proof fn lemma_group_msize_mono(
    st: Seq<Seq<char>>,
    mac: Seq<(Seq<char>, RegexAST)>,
    nodes: Seq<RegexAST>,
    u: int,
    i: int,
    j: int,
    depth: int,
)
    requires
        0 <= u <= i <= j <= nodes.len(),
    ensures
        msize(spec_group(st, mac, nodes.subrange(u, i), depth)) <= msize(
            spec_group(st, mac, nodes.subrange(u, j), depth),
        ),
    decreases j - i,
{
    if i < j {
        lemma_group_msize_mono(st, mac, nodes, u, i, j - 1, depth);
        assert(nodes.subrange(u, j).drop_last() =~= nodes.subrange(u, j - 1));
        lemma_concat_msize(
            spec_group(st, mac, nodes.subrange(u, j - 1), depth),
            spec_compile(st, mac, nodes.subrange(u, j).last(), depth),
        );
    }
}

/// A longer slice of a disjunction compiles to a machine at least as large.
pub proof fn lemma_disj_msize_mono(
    st: Seq<Seq<char>>,
    mac: Seq<(Seq<char>, RegexAST)>,
    nodes: Seq<RegexAST>,
    i: int,
    j: int,
    depth: int,
)
    requires
        1 <= i <= j <= nodes.len(),
    ensures
        msize(spec_disj(st, mac, nodes.subrange(0, i), depth)) <= msize(
            spec_disj(st, mac, nodes.subrange(0, j), depth),
        ),
    decreases j - i,
{
    if i < j {
        lemma_disj_msize_mono(st, mac, nodes, i, j - 1, depth);
        assert(nodes.subrange(0, j).drop_last() =~= nodes.subrange(0, j - 1));
        lemma_union_msize(
            spec_disj(st, mac, nodes.subrange(0, j - 1), depth),
            spec_compile(st, mac, nodes.subrange(0, j).last(), depth),
        );
    }
}

/// Whether the vector of symbols holds `s`.
fn contains_sym(set: &Vec<String>, s: &String) -> (r: bool)
    ensures
        r == sym_in(syms_view(set@), s@),
{
    let n: usize = set.len();
    let mut j: usize = 0;
    while j < n
        invariant
            0 <= j <= n,
            n == set@.len(),
            forall|k: int| 0 <= k < j ==> syms_view(set@)[k] != s@,
        decreases n - j,
    {
        let eqr: bool = set[j].eq(s);
        proof {
            assert(syms_view(set@)[j as int] == set@[j as int]@);
        }
        if eqr {
            return true;
        }
        j = j + 1;
    }
    false
}

/// The two-state fragment of one label.
pub(crate) fn single(l: u32) -> (r: Wfst)
    ensures
        r.m() == spec_single(l as int),
        r.wf(),
{
    let r = Wfst {
        start: 0,
        finals: vec![None, Some(0u32)],
        trs: vec![Trans { from: 0, il: l, ol: l, cost: 0, to: 1 }],
    };
    proof {
        assert(r.m() =~= spec_single(l as int));
    }
    r
}

/// Compiles one pattern node into an automaton fragment; the result is
/// exactly the fragment `spec_compile` describes. Fails only when an
/// automaton outgrows the index space.
#[verifier::rlimit(100)]
#[verifier::loop_isolation(false)]
pub fn node_fst(symt: &SymTab, macros: &MacroTable, node: &RegexAST, depth: u64) -> (r: Result<
    Wfst,
    FstError,
>)
    requires
        symt@.len() <= 0xffff_ffff,
    ensures
        r matches Ok(w) ==> w.wf() && w.m() == spec_compile(
            symt@,
            macros@,
            *node,
            depth as int,
        ),
        r matches Err(e) ==> e == FstError::TooLarge,
        msize(spec_compile(symt@, macros@, *node, depth as int)) <= usize::MAX ==> r is Ok,
    decreases depth, *node,
{
    let ghost fm: Mach = spec_compile(symt@, macros@, *node, depth as int);
    match node {
        RegexAST::Epsilon => Ok(Wfst::seed()),
        RegexAST::Comment => Ok(Wfst::seed()),
        RegexAST::Boundary => {
            let l: usize = match symt.label_of_char('#') {
                Some(l) => l,
                None => 1,
            };
            let frag = single(l as u32);
            let mut acc = Wfst::seed();
            if !acc.try_concat_with(&frag) {
                proof {
                    assert(acc.finals@.len() == 1 && acc.trs@.len() == 0);
                    assert(frag.finals@.len() == 2 && frag.trs@.len() == 1);
                    assert(false);
                }
                return Err(FstError::TooLarge);
            }
            Ok(acc)
        },
        RegexAST::Char(c) => {
            let l: usize = match symt.label_of_char(*c) {
                Some(l) => l,
                None => 0,
            };
            let frag = single(l as u32);
            let mut acc = Wfst::seed();
            if !acc.try_concat_with(&frag) {
                proof {
                    assert(acc.finals@.len() == 1 && acc.trs@.len() == 0);
                    assert(frag.finals@.len() == 2 && frag.trs@.len() == 1);
                    assert(false);
                }
                return Err(FstError::TooLarge);
            }
            Ok(acc)
        },
        RegexAST::Group(v) => {
            let mut acc = Wfst::seed();
            let n: usize = v.len();
            let mut i: usize = 0;
            while i < n
                invariant
                    0 <= i <= n,
                    n == v@.len(),
                    symt@.len() <= 0xffff_ffff,
                    acc.wf(),
                    acc.m() == spec_group(symt@, macros@, v@.subrange(0, i as int), depth as int),
                decreases n - i,
            {
                proof {
                    assert((*node)->Group_0 == *v);
                    assert(decreases_to!(*node => (*node)->Group_0));
                    assert(decreases_to!(*v => v@));
                    assert(decreases_to!(v@ => v@[i as int]));
                    assert(decreases_to!(*node => v@[i as int]));
                }
                let w = match node_fst(symt, macros, &v[i], depth) {
                    Ok(w) => w,
                    Err(e) => {
                        proof {
                            let cm = spec_compile(symt@, macros@, v@[i as int], depth as int);
                            assert(msize(cm) > usize::MAX);
                            assert(v@.subrange(0, i + 1).drop_last() =~= v@.subrange(0, i as int));
                            assert(v@.subrange(0, i + 1).last() == v@[i as int]);
                            lemma_concat_msize(
                                spec_group(symt@, macros@, v@.subrange(0, i as int), depth as int),
                                cm,
                            );
                            lemma_group_msize_mono(symt@, macros@, v@, 0, i + 1, n as int, depth as int);
                            assert(v@.subrange(0, n as int) =~= v@);
                            assert(msize(fm) > usize::MAX);
                        }
                        return Err(e);
                    },
                };
                if !acc.try_concat_with(&w) {
                    proof {
                        let am = acc.m();
                        let cm = w.m();
                        lemma_concat_msize(am, cm);
                        assert(v@.subrange(0, i + 1).drop_last() =~= v@.subrange(0, i as int));
                        assert(v@.subrange(0, i + 1).last() == v@[i as int]);
                        assert(spec_group(symt@, macros@, v@.subrange(0, i + 1), depth as int)
                            == spec_concat(am, cm));
                        assert(msize(spec_group(symt@, macros@, v@.subrange(0, i + 1), depth as int))
                            > usize::MAX);
                        lemma_group_msize_mono(symt@, macros@, v@, 0, i + 1, n as int, depth as int);
                        assert(v@.subrange(0, n as int) =~= v@);
                        assert(msize(fm) > usize::MAX);
                    }
                    return Err(FstError::TooLarge);
                }
                proof {
                    assert(v@.subrange(0, i + 1).drop_last() =~= v@.subrange(0, i as int));
                    assert(v@.subrange(0, i + 1).last() == v@[i as int]);
                }
                i = i + 1;
            }
            proof {
                assert(v@.subrange(0, n as int) =~= v@);
            }
            Ok(acc)
        },
        RegexAST::Disjunction(v) => {
            let n: usize = v.len();
            if n == 0 {
                // A choice among no branches accepts nothing.
                let dead = Wfst::dead();
                let mut acc = Wfst::seed();
                if !acc.try_concat_with(&dead) {
                    proof {
                        assert(acc.finals@.len() == 1 && acc.trs@.len() == 0);
                        assert(dead.finals@.len() == 1 && dead.trs@.len() == 0);
                        assert(false);
                    }
                    return Err(FstError::TooLarge);
                }
                return Ok(acc);
            }
            proof {
                assert(decreases_to!(*node => v@[0]));
            }
            let mut u = match node_fst(symt, macros, &v[0], depth) {
                Ok(w) => w,
                Err(e) => {
                    proof {
                        let cm = spec_compile(symt@, macros@, v@[0], depth as int);
                        assert(msize(cm) > usize::MAX);
                        assert(v@.subrange(0, 1) =~= seq![v@[0]]);
                        assert(spec_disj(symt@, macros@, v@.subrange(0, 1), depth as int) == cm);
                        lemma_disj_msize_mono(symt@, macros@, v@, 1, n as int, depth as int);
                        assert(v@.subrange(0, n as int) =~= v@);
                        lemma_concat_msize(
                            spec_seed(),
                            spec_disj(symt@, macros@, v@, depth as int),
                        );
                        assert(msize(fm) > usize::MAX);
                    }
                    return Err(e);
                },
            };
            proof {
                assert(v@.subrange(0, 1) =~= seq![v@[0]]);
                assert(u.m() == spec_disj(symt@, macros@, v@.subrange(0, 1), depth as int));
            }
            let mut i: usize = 1;
            while i < n
                invariant
                    1 <= i <= n,
                    n == v@.len(),
                    symt@.len() <= 0xffff_ffff,
                    u.wf(),
                    u.m() == spec_disj(symt@, macros@, v@.subrange(0, i as int), depth as int),
                decreases n - i,
            {
                proof {
                    assert((*node)->Disjunction_0 == *v);
                    assert(decreases_to!(*node => (*node)->Disjunction_0));
                    assert(decreases_to!(*v => v@));
                    assert(decreases_to!(v@ => v@[i as int]));
                    assert(decreases_to!(*node => v@[i as int]));
                }
                let w = match node_fst(symt, macros, &v[i], depth) {
                    Ok(w) => w,
                    Err(e) => {
                        proof {
                            let cm = spec_compile(symt@, macros@, v@[i as int], depth as int);
                            assert(msize(cm) > usize::MAX);
                            assert(v@.subrange(0, i + 1).drop_last() =~= v@.subrange(0, i as int));
                            assert(v@.subrange(0, i + 1).last() == v@[i as int]);
                            lemma_union_msize(
                                spec_disj(symt@, macros@, v@.subrange(0, i as int), depth as int),
                                cm,
                            );
                            lemma_disj_msize_mono(symt@, macros@, v@, i + 1, n as int, depth as int);
                            assert(v@.subrange(0, n as int) =~= v@);
                            lemma_concat_msize(
                                spec_seed(),
                                spec_disj(symt@, macros@, v@, depth as int),
                            );
                            assert(msize(fm) > usize::MAX);
                        }
                        return Err(e);
                    },
                };
                if !u.try_union_with(&w) {
                    proof {
                        lemma_union_msize(u.m(), w.m());
                        assert(v@.subrange(0, i + 1).drop_last() =~= v@.subrange(0, i as int));
                        assert(v@.subrange(0, i + 1).last() == v@[i as int]);
                        assert(spec_disj(symt@, macros@, v@.subrange(0, i + 1), depth as int)
                            == spec_union(u.m(), w.m()));
                        lemma_disj_msize_mono(symt@, macros@, v@, i + 1, n as int, depth as int);
                        assert(v@.subrange(0, n as int) =~= v@);
                        lemma_concat_msize(
                            spec_seed(),
                            spec_disj(symt@, macros@, v@, depth as int),
                        );
                        assert(msize(fm) > usize::MAX);
                    }
                    return Err(FstError::TooLarge);
                }
                proof {
                    assert(v@.subrange(0, i + 1).drop_last() =~= v@.subrange(0, i as int));
                    assert(v@.subrange(0, i + 1).last() == v@[i as int]);
                }
                i = i + 1;
            }
            proof {
                assert(v@.subrange(0, n as int) =~= v@);
            }
            let mut acc = Wfst::seed();
            if !acc.try_concat_with(&u) {
                proof {
                    assert(acc.finals@.len() == 1 && acc.trs@.len() == 0);
                    lemma_concat_msize(spec_seed(), u.m());
                    assert(msize(fm) > usize::MAX);
                }
                return Err(FstError::TooLarge);
            }
            Ok(acc)
        },
        RegexAST::Class(syms) => {
            let mut trs: Vec<Trans> = Vec::new();
            let n: usize = syms.len();
            let mut i: usize = 0;
            while i < n
                invariant
                    0 <= i <= n,
                    n == syms@.len(),
                    symt@.len() <= 0xffff_ffff,
                    trs@.map(|k: int, t: Trans| t.m()) =~= class_arcs(
                        symt@,
                        syms_view(syms@),
                        i as int,
                    ),
                    forall|k: int|
                        0 <= k < trs@.len() ==> (#[trigger] trs@[k]).from == 0 && trs@[k].to == 1,
                decreases n - i,
            {
                let ghost pre: Seq<GTr> = trs@.map(|k: int, t: Trans| t.m());
                proof {
                    assert(syms_view(syms@)[i as int] == syms@[i as int]@);
                }
                match symt.label_of(&syms[i]) {
                    Some(l) => {
                        trs.push(Trans { from: 0, il: l as u32, ol: l as u32, cost: 0, to: 1 });
                        proof {
                            assert(trs@.map(|k: int, t: Trans| t.m()) =~= pre + seq![
                                GTr { from: 0, il: l as int, ol: l as int, cost: 0, to: 1 },
                            ]);
                        }
                    },
                    None => {},
                }
                i = i + 1;
            }
            let frag = Wfst { start: 0, finals: vec![None, Some(0u32)], trs };
            proof {
                assert(frag.m() =~= spec_class_frag(symt@, syms_view(syms@)));
            }
            let mut acc = Wfst::seed();
            if !acc.try_concat_with(&frag) {
                proof {
                    assert(acc.finals@.len() == 1 && acc.trs@.len() == 0);
                    lemma_concat_msize(spec_seed(), frag.m());
                    assert(msize(fm) > usize::MAX);
                }
                return Err(FstError::TooLarge);
            }
            Ok(acc)
        },
        RegexAST::ClassComplement(syms) => {
            let mut trs: Vec<Trans> = Vec::new();
            let n: usize = symt.len();
            let mut l: usize = 1;
            while l < n
                invariant
                    1 <= l <= n || (n < 1 && l == 1),
                    n == symt@.len(),
                    n <= 0xffff_ffff,
                    trs@.map(|k: int, t: Trans| t.m()) =~= comp_arcs(
                        symt@,
                        syms_view(syms@),
                        l as int,
                    ),
                    forall|k: int|
                        0 <= k < trs@.len() ==> (#[trigger] trs@[k]).from == 0 && trs@[k].to == 1,
                decreases n - l,
            {
                let ghost pre: Seq<GTr> = trs@.map(|k: int, t: Trans| t.m());
                let s: &String = &symt.syms[l];
                proof {
                    assert(symt@[l as int] == symt.syms@[l as int]@);
                }
                let st: &str = s.as_str();
                let is_bnd: bool = st.unicode_len() == 1 && st.get_char(0) == '#';
                proof {
                    if is_bnd {
                        assert(symt@[l as int] =~= seq!['#']);
                    } else {
                        assert(symt@[l as int] != seq!['#']);
                    }
                }
                if !is_bnd && !contains_sym(syms, s) {
                    trs.push(Trans { from: 0, il: l as u32, ol: l as u32, cost: 0, to: 1 });
                    proof {
                        assert(trs@.map(|k: int, t: Trans| t.m()) =~= pre + seq![
                            GTr { from: 0, il: l as int, ol: l as int, cost: 0, to: 1 },
                        ]);
                    }
                }
                l = l + 1;
            }
            let frag = Wfst { start: 0, finals: vec![None, Some(0u32)], trs };
            proof {
                if n < 1 {
                    assert(frag.m().trs =~= comp_arcs(symt@, syms_view(syms@), n as int));
                }
                assert(frag.m() =~= spec_comp_frag(symt@, syms_view(syms@)));
            }
            let mut acc = Wfst::seed();
            if !acc.try_concat_with(&frag) {
                proof {
                    assert(acc.finals@.len() == 1 && acc.trs@.len() == 0);
                    lemma_concat_msize(spec_seed(), frag.m());
                    assert(msize(fm) > usize::MAX);
                }
                return Err(FstError::TooLarge);
            }
            Ok(acc)
        },
        RegexAST::Star(bn) => {
            proof {
                assert(decreases_to!(*node => **bn));
            }
            let mut w = match node_fst(symt, macros, bn, depth) {
                Ok(w) => w,
                Err(e) => {
                    proof {
                        let cm = spec_compile(symt@, macros@, **bn, depth as int);
                        assert(msize(cm) > usize::MAX);
                        lemma_closure_msize(cm);
                        lemma_concat_msize(spec_seed(), spec_closure_star(cm));
                        assert(msize(fm) > usize::MAX);
                    }
                    return Err(e);
                },
            };
            if !w.try_close_star() {
                proof {
                    lemma_closure_msize(w.m());
                    lemma_concat_msize(spec_seed(), spec_closure_star(w.m()));
                    assert(msize(fm) > usize::MAX);
                }
                return Err(FstError::TooLarge);
            }
            let mut acc = Wfst::seed();
            if !acc.try_concat_with(&w) {
                proof {
                    assert(acc.finals@.len() == 1 && acc.trs@.len() == 0);
                    lemma_concat_msize(spec_seed(), w.m());
                    assert(msize(fm) > usize::MAX);
                }
                return Err(FstError::TooLarge);
            }
            Ok(acc)
        },
        RegexAST::Plus(bn) => {
            proof {
                assert(decreases_to!(*node => **bn));
            }
            let mut w = match node_fst(symt, macros, bn, depth) {
                Ok(w) => w,
                Err(e) => {
                    proof {
                        let cm = spec_compile(symt@, macros@, **bn, depth as int);
                        assert(msize(cm) > usize::MAX);
                        lemma_closure_msize(cm);
                        lemma_concat_msize(spec_seed(), spec_closure_plus(cm));
                        assert(msize(fm) > usize::MAX);
                    }
                    return Err(e);
                },
            };
            if !w.try_close_plus() {
                proof {
                    lemma_closure_msize(w.m());
                    lemma_concat_msize(spec_seed(), spec_closure_plus(w.m()));
                    assert(msize(fm) > usize::MAX);
                }
                return Err(FstError::TooLarge);
            }
            let mut acc = Wfst::seed();
            if !acc.try_concat_with(&w) {
                proof {
                    assert(acc.finals@.len() == 1 && acc.trs@.len() == 0);
                    lemma_concat_msize(spec_seed(), w.m());
                    assert(msize(fm) > usize::MAX);
                }
                return Err(FstError::TooLarge);
            }
            Ok(acc)
        },
        RegexAST::Opt(bn) => {
            proof {
                assert(decreases_to!(*node => **bn));
            }
            let mut w = match node_fst(symt, macros, bn, depth) {
                Ok(w) => w,
                Err(e) => {
                    proof {
                        let cm = spec_compile(symt@, macros@, **bn, depth as int);
                        assert(msize(cm) > usize::MAX);
                        lemma_closure_msize(cm);
                        lemma_concat_msize(spec_seed(), spec_optional(cm));
                        assert(msize(fm) > usize::MAX);
                    }
                    return Err(e);
                },
            };
            if !w.try_make_optional() {
                proof {
                    lemma_closure_msize(w.m());
                    lemma_concat_msize(spec_seed(), spec_optional(w.m()));
                    assert(msize(fm) > usize::MAX);
                }
                return Err(FstError::TooLarge);
            }
            let mut acc = Wfst::seed();
            if !acc.try_concat_with(&w) {
                proof {
                    assert(acc.finals@.len() == 1 && acc.trs@.len() == 0);
                    lemma_concat_msize(spec_seed(), w.m());
                    assert(msize(fm) > usize::MAX);
                }
                return Err(FstError::TooLarge);
            }
            Ok(acc)
        },
        RegexAST::Macro(name) => {
            let w: Wfst = if depth > 0 {
                match macros.get(name) {
                    Some(def) => {
                        match node_fst(symt, macros, def, depth - 1) {
                            Ok(w) => w,
                            Err(e) => {
                                proof {
                                    let cm = spec_compile(symt@, macros@, *def, depth - 1);
                                    assert(msize(cm) > usize::MAX);
                                    lemma_concat_msize(spec_seed(), cm);
                                    assert(msize(fm) > usize::MAX);
                                }
                                return Err(e);
                            },
                        }
                    },
                    None => Wfst::seed(),
                }
            } else {
                Wfst::seed()
            };
            proof {
                assert(fm == spec_concat(spec_seed(), w.m()));
            }
            let mut acc = Wfst::seed();
            if !acc.try_concat_with(&w) {
                proof {
                    assert(acc.finals@.len() == 1 && acc.trs@.len() == 0);
                    lemma_concat_msize(spec_seed(), w.m());
                    assert(msize(fm) > usize::MAX);
                }
                return Err(FstError::TooLarge);
            }
            Ok(acc)
        },
    }
}

} // verus!
