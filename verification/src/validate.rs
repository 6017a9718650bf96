//! The validator: apply a compiled relation to a test pair and decide
//! whether the expected form is reachable, by composing with linear
//! acceptors, enumerating accepting paths up to a length bound, and ranking
//! them by cost.

use vstd::prelude::*;
use crate::algebra::compose_fst;
use crate::algebra::minimize_fst;
use crate::ast::RegexAST;
use crate::ast::RewriteRule;
use crate::ast::Statement;
use crate::compiler::FstError;
use crate::lang::accepting;
use crate::lang::aw;
use crate::lang::comp_aw;
use crate::lang::lemma_path_append;
use crate::lang::lemma_single_step;
use crate::lang::path_cost;
use crate::lang::path_end;
use crate::lang::path_in;
use crate::lang::path_ok;
use crate::lang::path_out;
use crate::machine::GTr;
use crate::machine::Mach;
use crate::machine::Trans;
use crate::machine::Wfst;
use crate::rewrite::compile_script;
use crate::rewrite::script_aw;
use crate::rewrite::arrow_idx;
use crate::rewrite::spec_rule_ok;
use crate::compiler::syms_view;
use crate::tables::SymTab;
use crate::tables::spec_label;

verus! {

/// The label of one character: its table label, or epsilon when absent.
pub open spec fn spec_char_label(st: Seq<Seq<char>>, c: char) -> int {
    match spec_label(st, seq![c], 0) {
        Some(l) => l,
        None => 0,
    }
}

/// The labels of a character string, character for character.
pub open spec fn spec_labels(st: Seq<Seq<char>>, chars: Seq<char>) -> Seq<int> {
    chars.map(|i: int, c: char| spec_char_label(st, c))
}

/// The boundary label: the label of `#`, defaulting to 1.
pub open spec fn spec_bnd(st: Seq<Seq<char>>) -> int {
    match spec_label(st, seq!['#'], 0) {
        Some(l) => l,
        None => 1,
    }
}

/// The labels of a string wrapped in boundary markers.
pub open spec fn spec_wrapped(st: Seq<Seq<char>>, chars: Seq<char>) -> Seq<int> {
    seq![spec_bnd(st)] + spec_labels(st, chars) + seq![spec_bnd(st)]
}

/// The non-epsilon labels at or after `k`: what a linear automaton of these
/// labels consumes and emits.
pub open spec fn nz_from(ls: Seq<int>, k: int) -> Seq<int>
    decreases ls.len() - k,
{
    if k < 0 || k >= ls.len() {
        Seq::empty()
    } else {
        (if ls[k] != 0 {
            seq![ls[k]]
        } else {
            Seq::empty()
        }) + nz_from(ls, k + 1)
    }
}

/// The non-epsilon labels of a string.
pub open spec fn nz(ls: Seq<int>) -> Seq<int> {
    nz_from(ls, 0)
}

/// The linear automaton of a label string: one state per position, one
/// identity arc per label, accepting at the end at cost zero.
pub open spec fn spec_linear(ls: Seq<int>) -> Mach {
    Mach {
        start: 0,
        finals: Seq::new((ls.len() + 1) as nat, |i: int| if i == ls.len() {
            Some(0int)
        } else {
            None
        }),
        trs: Seq::new(ls.len() as nat, |k: int| GTr { from: k, il: ls[k], ol: ls[k], cost: 0, to: k + 1 }),
    }
}

/// Every accepting walk of a linear automaton from position `s` consumes
/// and emits exactly the remaining non-epsilon labels at cost zero.
pub proof fn lemma_linear_sound(ls: Seq<int>, p: Seq<int>, s: int)
    requires
        path_ok(spec_linear(ls), p, s),
        0 <= s <= ls.len(),
        spec_linear(ls).finals[path_end(spec_linear(ls), p, s)] is Some,
        0 <= path_end(spec_linear(ls), p, s) < spec_linear(ls).finals.len(),
    ensures
        path_in(spec_linear(ls), p) == nz_from(ls, s),
        path_out(spec_linear(ls), p) == nz_from(ls, s),
        path_cost(spec_linear(ls), p) == 0,
    decreases p.len(),
{
    let m = spec_linear(ls);
    if p.len() == 0 {
        assert(path_end(m, p, s) == s);
        assert(s == ls.len());
        assert(nz_from(ls, s) =~= Seq::<int>::empty());
    } else {
        assert(m.trs[p[0]].from == s);
        assert(p[0] == s);
        assert(s < ls.len());
        lemma_linear_sound(ls, p.drop_first(), s + 1);
        assert(path_in(m, p) =~= nz_from(ls, s));
        assert(path_out(m, p) =~= nz_from(ls, s));
    }
}

/// The view of collected outputs as label strings.
pub open spec fn u32s(s: Seq<u32>) -> Seq<int> {
    s.map(|i: int, x: u32| x as int)
}

/// The boundary label of the table, as the executable side computes it.
pub fn bnd_label(symt: &SymTab) -> (l: usize)
    requires
        symt@.len() <= 0xffff_ffff,
    ensures
        l as int == spec_bnd(symt@),
        l <= 0xffff_ffff,
    {
    match symt.label_of_char('#') {
        Some(l) => l,
        None => 1,
    }
}

/// The labels of a string wrapped in boundary markers.
pub fn wrapped_labels(symt: &SymTab, s: &str) -> (r: Vec<u32>)
    requires
        symt@.len() <= 0xffff_ffff,
    ensures
        u32s(r@) == spec_wrapped(symt@, s@),
{
    let b: usize = bnd_label(symt);
    let mut r: Vec<u32> = Vec::new();
    r.push(b as u32);
    let n: usize = s.unicode_len();
    let mut i: usize = 0;
    while i < n
        invariant
            0 <= i <= n,
            n == s@.len(),
            symt@.len() <= 0xffff_ffff,
            r@.len() == i + 1,
            u32s(r@) =~= seq![spec_bnd(symt@)] + spec_labels(symt@, s@.subrange(0, i as int)),
        decreases n - i,
    {
        let c: char = s.get_char(i);
        let l: usize = match symt.label_of_char(c) {
            Some(l) => l,
            None => 0,
        };
        proof {
            assert(c == s@[i as int]);
            assert(spec_char_label(symt@, c) == l as int);
        }
        let ghost rpre: Seq<u32> = r@;
        r.push(l as u32);
        proof {
            assert(u32s(rpre) == seq![spec_bnd(symt@)] + spec_labels(symt@, s@.subrange(0, i as int)));
            assert(r@ == rpre.push(l as u32));
            assert forall|x: int| 0 <= x < i + 1 implies u32s(r@)[x] == u32s(rpre)[x] by {
                assert(r@[x] == rpre[x]);
            }
            assert(u32s(r@)[i + 1] == l as int);
            assert forall|x: int|
                0 <= x < i implies spec_labels(symt@, s@.subrange(0, i as int))[x]
                == spec_char_label(symt@, s@[x]) by {
                assert(s@.subrange(0, i as int)[x] == s@[x]);
            }
            assert forall|x: int|
                0 <= x < i + 1 implies spec_labels(symt@, s@.subrange(0, i + 1))[x]
                == spec_char_label(symt@, s@[x]) by {
                assert(s@.subrange(0, i + 1)[x] == s@[x]);
            }
            let ghost rhs: Seq<int> = seq![spec_bnd(symt@)] + spec_labels(
                symt@,
                s@.subrange(0, i + 1),
            );
            assert(u32s(r@).len() == i + 2);
            assert(rhs.len() == i + 2);
            assert forall|x: int| 0 <= x < i + 2 implies u32s(r@)[x] == rhs[x] by {
                if x == 0 {
                    assert(u32s(r@)[0] == u32s(rpre)[0]);
                    assert(u32s(rpre)[0] == spec_bnd(symt@));
                } else if x < i + 1 {
                    assert(u32s(r@)[x] == u32s(rpre)[x]);
                    assert(u32s(rpre)[x] == spec_labels(symt@, s@.subrange(0, i as int))[x - 1]);
                    assert(rhs[x] == spec_labels(symt@, s@.subrange(0, i + 1))[x - 1]);
                    assert(spec_labels(symt@, s@.subrange(0, i as int))[x - 1]
                        == spec_char_label(symt@, s@[x - 1]));
                    assert(spec_labels(symt@, s@.subrange(0, i + 1))[x - 1] == spec_char_label(
                        symt@,
                        s@[x - 1],
                    ));
                } else {
                    assert(u32s(r@)[x] == l as int);
                    assert(rhs[x] == spec_labels(symt@, s@.subrange(0, i + 1))[i as int]);
                    assert(spec_labels(symt@, s@.subrange(0, i + 1))[i as int] == spec_char_label(
                        symt@,
                        s@[i as int],
                    ));
                }
            }
            assert(u32s(r@) =~= rhs);
        }
        i = i + 1;
    }
    r.push(b as u32);
    proof {
        assert(s@.subrange(0, n as int) =~= s@);
        assert(u32s(r@) =~= spec_wrapped(symt@, s@));
    }
    r
}

/// The linear automaton of a label string.
pub fn linear_fst(ls: &Vec<u32>) -> (r: Wfst)
    ensures
        r.m() == spec_linear(u32s(ls@)),
        r.wf(),
{
    let n: usize = ls.len();
    let mut finals: Vec<Option<u32>> = Vec::new();
    let mut trs: Vec<Trans> = Vec::new();
    let mut k: usize = 0;
    while k < n
        invariant
            0 <= k <= n,
            n == ls@.len(),
            finals@.len() == k,
            trs@.len() == k,
            forall|x: int| 0 <= x < k ==> finals@[x] is None,
            forall|x: int|
                0 <= x < k ==> (#[trigger] trs@[x]) == (Trans {
                    from: x as usize,
                    il: ls@[x],
                    ol: ls@[x],
                    cost: 0u32,
                    to: (x + 1) as usize,
                }),
        decreases n - k,
    {
        finals.push(None);
        trs.push(Trans { from: k, il: ls[k], ol: ls[k], cost: 0, to: k + 1 });
        k = k + 1;
    }
    finals.push(Some(0u32));
    let r = Wfst { start: 0, finals, trs };
    proof {
        assert(r.m() =~= spec_linear(u32s(ls@)));
    }
    r
}

/// Composes the relation's input side against a string: the result maps the
/// string, and it alone, to whatever the relation maps it to.
pub fn apply_fst_to_string(symt: &SymTab, fst: &Wfst, input: &str) -> (r: Result<Wfst, FstError>)
    requires
        fst.wf(),
        symt@.len() <= 0xffff_ffff,
    ensures
        r matches Ok(w) ==> w.wf() && forall|i: Seq<int>, o: Seq<int>, c: int|
            aw(w.m(), i, o, c) <==> comp_aw(
                spec_linear(spec_wrapped(symt@, input@)),
                fst.m(),
                i,
                o,
                c,
            ),
        r matches Err(e) ==> e == FstError::Algebra,
{
    let ls = wrapped_labels(symt, input);
    let lin = linear_fst(&ls);
    match compose_fst(&lin, fst) {
        Some(w) => Ok(w),
        None => Err(FstError::Algebra),
    }
}

/// Composes the relation's output side against a string: the result keeps
/// only the derivations that emit exactly that string.
pub fn apply_fst_to_output_string(symt: &SymTab, fst: &Wfst, output: &str) -> (r: Result<
    Wfst,
    FstError,
>)
    requires
        fst.wf(),
        symt@.len() <= 0xffff_ffff,
    ensures
        r matches Ok(w) ==> w.wf() && forall|i: Seq<int>, o: Seq<int>, c: int|
            aw(w.m(), i, o, c) <==> comp_aw(
                fst.m(),
                spec_linear(spec_wrapped(symt@, output@)),
                i,
                o,
                c,
            ),
        r matches Err(e) ==> e == FstError::Algebra,
{
    let ls = wrapped_labels(symt, output);
    let lin = linear_fst(&ls);
    match compose_fst(fst, &lin) {
        Some(w) => Ok(w),
        None => Err(FstError::Algebra),
    }
}

/// Some collected result carries this exact total cost and output.
pub open spec fn listed(rs: Seq<(u64, Vec<u32>)>, cost: int, outl: Seq<int>) -> bool {
    exists|j: int|
        0 <= j < rs.len() && (#[trigger] rs[j]).0 as int == cost && u32s(rs[j].1@) == outl
}

/// Whatever is listed stays listed when the collection only grows.
proof fn lemma_listed_grows(a: Seq<(u64, Vec<u32>)>, b: Seq<(u64, Vec<u32>)>)
    requires
        a.len() <= b.len(),
        forall|j: int| 0 <= j < a.len() ==> a[j] == b[j],
    ensures
        forall|cost: int, outl: Seq<int>| listed(a, cost, outl) ==> #[trigger] listed(
            b,
            cost,
            outl,
        ),
{
    assert forall|cost: int, outl: Seq<int>| listed(a, cost, outl) implies #[trigger] listed(
        b,
        cost,
        outl,
    ) by {
        let j = choose|j: int|
            0 <= j < a.len() && (#[trigger] a[j]).0 as int == cost && u32s(a[j].1@) == outl;
        assert(b[j] == a[j]);
    }
}

/// Some accepting walk from `s` of at most `fuel` arcs has this total cost
/// and this output.
pub open spec fn path_witness(m: Mach, s: int, fuel: int, cost: int, outl: Seq<int>) -> bool {
    exists|p: Seq<int>|
        {
            &&& #[trigger] path_ok(m, p, s)
            &&& p.len() <= fuel
            &&& 0 <= path_end(m, p, s) < m.finals.len()
            &&& m.finals[path_end(m, p, s)] is Some
            &&& path_cost(m, p) + m.finals[path_end(m, p, s)]->0 == cost
            &&& path_out(m, p) == outl
        }
}

/// An actual walk establishes a witness.
pub proof fn lemma_witness_intro(m: Mach, s: int, fuel: int, p: Seq<int>, cost: int, outl: Seq<int>)
    requires
        path_ok(m, p, s),
        p.len() <= fuel,
        0 <= path_end(m, p, s) < m.finals.len(),
        m.finals[path_end(m, p, s)] is Some,
        path_cost(m, p) + m.finals[path_end(m, p, s)]->0 == cost,
        path_out(m, p) == outl,
    ensures
        path_witness(m, s, fuel, cost, outl),
{
}

/// A witness yields an actual walk.
pub proof fn lemma_witness_take(m: Mach, s: int, fuel: int, cost: int, outl: Seq<int>) -> (p: Seq<
    int,
>)
    requires
        path_witness(m, s, fuel, cost, outl),
    ensures
        path_ok(m, p, s),
        p.len() <= fuel,
        0 <= path_end(m, p, s) < m.finals.len(),
        m.finals[path_end(m, p, s)] is Some,
        path_cost(m, p) + m.finals[path_end(m, p, s)]->0 == cost,
        path_out(m, p) == outl,
{
    choose|p: Seq<int>|
        {
            &&& #[trigger] path_ok(m, p, s)
            &&& p.len() <= fuel
            &&& 0 <= path_end(m, p, s) < m.finals.len()
            &&& m.finals[path_end(m, p, s)] is Some
            &&& path_cost(m, p) + m.finals[path_end(m, p, s)]->0 == cost
            &&& path_out(m, p) == outl
        }
}

/// All accepting continuations from `s` of at most `fuel` arcs: their total
/// costs, acceptance included, and their emitted label strings. Every
/// element is witnessed by an actual walk, and every such walk is listed
/// with its exact cost and output.
#[verifier::loop_isolation(false)]
#[verifier::rlimit(100)]
pub fn paths_from(w: &Wfst, s: usize, fuel: u64) -> (r: Vec<(u64, Vec<u32>)>)
    requires
        w.wf(),
        s < w.finals.len(),
        fuel <= 0xffff_ffff,
    ensures
        forall|j: int|
            0 <= j < r@.len() ==> path_witness(
                w.m(),
                s as int,
                fuel as int,
                (#[trigger] r@[j]).0 as int,
                u32s(r@[j].1@),
            ),
        forall|j: int| 0 <= j < r@.len() ==> (#[trigger] r@[j]).0 <= (fuel + 1) * 0xffff_ffff,
        forall|p: Seq<int>|
            #![trigger path_ok(w.m(), p, s as int)]
            {
                &&& path_ok(w.m(), p, s as int)
                &&& p.len() <= fuel
                &&& 0 <= path_end(w.m(), p, s as int) < w.m().finals.len()
                &&& w.m().finals[path_end(w.m(), p, s as int)] is Some
            } ==> listed(
                r@,
                path_cost(w.m(), p) + w.m().finals[path_end(w.m(), p, s as int)]->0,
                path_out(w.m(), p),
            ),
    decreases fuel,
{
    let mut out: Vec<(u64, Vec<u32>)> = Vec::new();
    if let Some(c) = w.finals[s] {
        out.push((c as u64, Vec::new()));
        proof {
            let p = Seq::<int>::empty();
            assert(path_ok(w.m(), p, s as int));
            assert(path_out(w.m(), p) =~= u32s(out@[0].1@));
            lemma_witness_intro(w.m(), s as int, fuel as int, p, c as int, u32s(out@[0].1@));
        }
    }
    proof {
        assert forall|p: Seq<int>|
            #![trigger path_ok(w.m(), p, s as int)]
            {
                &&& path_ok(w.m(), p, s as int)
                &&& p.len() == 0
                &&& 0 <= path_end(w.m(), p, s as int) < w.m().finals.len()
                &&& w.m().finals[path_end(w.m(), p, s as int)] is Some
            } implies listed(
            out@,
            path_cost(w.m(), p) + w.m().finals[path_end(w.m(), p, s as int)]->0,
            path_out(w.m(), p),
        ) by {
            assert(path_end(w.m(), p, s as int) == s as int);
            assert(w.m().finals[s as int] is Some);
            assert(out@.len() == 1);
            assert(out@[0].0 as int == path_cost(w.m(), p) + w.m().finals[s as int]->0);
            assert(path_out(w.m(), p) =~= u32s(out@[0].1@));
        }
    }
    if fuel > 0 {
        let nt: usize = w.trs.len();
        let mut k: usize = 0;
        while k < nt
            invariant
                0 <= k <= nt,
                nt == w.trs@.len(),
                forall|j: int|
                    0 <= j < out@.len() ==> path_witness(
                        w.m(),
                        s as int,
                        fuel as int,
                        (#[trigger] out@[j]).0 as int,
                        u32s(out@[j].1@),
                    ),
                forall|j: int|
                    0 <= j < out@.len() ==> (#[trigger] out@[j]).0 <= (fuel + 1) * 0xffff_ffff,
                forall|p: Seq<int>|
                    #![trigger path_ok(w.m(), p, s as int)]
                    {
                        &&& path_ok(w.m(), p, s as int)
                        &&& p.len() <= fuel
                        &&& 0 <= path_end(w.m(), p, s as int) < w.m().finals.len()
                        &&& w.m().finals[path_end(w.m(), p, s as int)] is Some
                        &&& (p.len() == 0 || p[0] < k)
                    } ==> listed(
                        out@,
                        path_cost(w.m(), p) + w.m().finals[path_end(w.m(), p, s as int)]->0,
                        path_out(w.m(), p),
                    ),
            decreases nt - k,
        {
            let t: Trans = w.trs[k];
            if t.from == s {
                proof {
                    assert(w.m().tr_ok(w.m().trs[k as int]));
                }
                let subs = paths_from(w, t.to, fuel - 1);
                let ns: usize = subs.len();
                let mut q: usize = 0;
                while q < ns
                    invariant
                        0 <= q <= ns,
                        ns == subs@.len(),
                        t == w.trs@[k as int],
                        k < nt,
                        t.from == s,
                        t.to < w.finals@.len(),
                        forall|j: int|
                            0 <= j < subs@.len() ==> path_witness(
                                w.m(),
                                t.to as int,
                                fuel - 1,
                                (#[trigger] subs@[j]).0 as int,
                                u32s(subs@[j].1@),
                            ),
                        forall|j: int|
                            0 <= j < subs@.len() ==> (#[trigger] subs@[j]).0 <= fuel
                                * 0xffff_ffff,
                        forall|j: int|
                            0 <= j < out@.len() ==> path_witness(
                                w.m(),
                                s as int,
                                fuel as int,
                                (#[trigger] out@[j]).0 as int,
                                u32s(out@[j].1@),
                            ),
                        forall|j: int|
                            0 <= j < out@.len() ==> (#[trigger] out@[j]).0 <= (fuel + 1)
                                * 0xffff_ffff,
                        forall|j2: int|
                            0 <= j2 < q ==> listed(
                                out@,
                                t.cost + (#[trigger] subs@[j2]).0 as int,
                                (if t.ol != 0 {
                                    seq![t.ol as int]
                                } else {
                                    Seq::<int>::empty()
                                }) + u32s(subs@[j2].1@),
                            ),
                        forall|p: Seq<int>|
                            #![trigger path_ok(w.m(), p, s as int)]
                            {
                                &&& path_ok(w.m(), p, s as int)
                                &&& p.len() <= fuel
                                &&& 0 <= path_end(w.m(), p, s as int) < w.m().finals.len()
                                &&& w.m().finals[path_end(w.m(), p, s as int)] is Some
                                &&& (p.len() == 0 || p[0] < k)
                            } ==> listed(
                                out@,
                                path_cost(w.m(), p) + w.m().finals[path_end(
                                    w.m(),
                                    p,
                                    s as int,
                                )]->0,
                                path_out(w.m(), p),
                            ),
                    decreases ns - q,
                {
                    let c2: u64 = subs[q].0;
                    let mut newo: Vec<u32> = Vec::new();
                    if t.ol != 0 {
                        newo.push(t.ol);
                    }
                    let olen: usize = subs[q].1.len();
                    let mut x: usize = 0;
                    while x < olen
                        invariant
                            0 <= x <= olen,
                            q < subs@.len(),
                            olen == subs@[q as int].1@.len(),
                            newo@ =~= (if t.ol != 0 {
                                seq![t.ol]
                            } else {
                                Seq::<u32>::empty()
                            }) + subs@[q as int].1@.subrange(0, x as int),
                        decreases olen - x,
                    {
                        newo.push(subs[q].1[x]);
                        proof {
                            assert(newo@ =~= (if t.ol != 0 {
                                seq![t.ol]
                            } else {
                                Seq::<u32>::empty()
                            }) + subs@[q as int].1@.subrange(0, x + 1));
                        }
                        x = x + 1;
                    }
                    let nc: u64 = t.cost as u64 + c2;
                    proof {
                        assert(subs@[q as int].1@.subrange(0, olen as int) =~= subs@[q as int].1@);
                        let p2 = lemma_witness_take(
                            w.m(),
                            t.to as int,
                            fuel - 1,
                            subs@[q as int].0 as int,
                            u32s(subs@[q as int].1@),
                        );
                        lemma_single_step(w.m(), k as int, s as int);
                        lemma_path_append(w.m(), seq![k as int], p2, s as int);
                        let p = seq![k as int] + p2;
                        assert(path_out(w.m(), p) =~= u32s(newo@));
                        lemma_witness_intro(
                            w.m(),
                            s as int,
                            fuel as int,
                            p,
                            nc as int,
                            u32s(newo@),
                        );
                    }
                    let ghost outpre: Seq<(u64, Vec<u32>)> = out@;
                    out.push((nc, newo));
                    proof {
                        lemma_listed_grows(outpre, out@);
                        let last = out@.len() - 1;
                        assert(out@[last].0 as int == t.cost + subs@[q as int].0 as int);
                        assert(u32s(out@[last].1@) =~= (if t.ol != 0 {
                            seq![t.ol as int]
                        } else {
                            Seq::<int>::empty()
                        }) + u32s(subs@[q as int].1@));
                        assert(listed(
                            out@,
                            t.cost + subs@[q as int].0 as int,
                            (if t.ol != 0 {
                                seq![t.ol as int]
                            } else {
                                Seq::<int>::empty()
                            }) + u32s(subs@[q as int].1@),
                        ));
                    }
                    q = q + 1;
                }
                proof {
                    assert forall|p: Seq<int>|
                        #![trigger path_ok(w.m(), p, s as int)]
                        {
                            &&& path_ok(w.m(), p, s as int)
                            &&& p.len() <= fuel
                            &&& 0 <= path_end(w.m(), p, s as int) < w.m().finals.len()
                            &&& w.m().finals[path_end(w.m(), p, s as int)] is Some
                            &&& p.len() >= 1
                            &&& p[0] == k
                        } implies listed(
                        out@,
                        path_cost(w.m(), p) + w.m().finals[path_end(w.m(), p, s as int)]->0,
                        path_out(w.m(), p),
                    ) by {
                        let rest = p.drop_first();
                        assert(path_ok(w.m(), rest, t.to as int));
                        assert(path_end(w.m(), p, s as int) == path_end(
                            w.m(),
                            rest,
                            t.to as int,
                        ));
                        assert(listed(
                            subs@,
                            path_cost(w.m(), rest) + w.m().finals[path_end(
                                w.m(),
                                rest,
                                t.to as int,
                            )]->0,
                            path_out(w.m(), rest),
                        ));
                        let j2 = choose|j2: int|
                            0 <= j2 < subs@.len() && (#[trigger] subs@[j2]).0 as int == path_cost(
                                w.m(),
                                rest,
                            ) + w.m().finals[path_end(w.m(), rest, t.to as int)]->0 && u32s(
                                subs@[j2].1@,
                            ) == path_out(w.m(), rest);
                        assert(path_cost(w.m(), p) == t.cost + path_cost(w.m(), rest));
                        assert(path_out(w.m(), p) =~= (if t.ol != 0 {
                            seq![t.ol as int]
                        } else {
                            Seq::<int>::empty()
                        }) + path_out(w.m(), rest));
                        assert(listed(
                            out@,
                            t.cost + subs@[j2].0 as int,
                            (if t.ol != 0 {
                                seq![t.ol as int]
                            } else {
                                Seq::<int>::empty()
                            }) + u32s(subs@[j2].1@),
                        ));
                    }
                }
            }
            k = k + 1;
        }
    }
    proof {
        assert forall|p: Seq<int>|
            #![trigger path_ok(w.m(), p, s as int)]
            {
                &&& path_ok(w.m(), p, s as int)
                &&& p.len() <= fuel
                &&& 0 <= path_end(w.m(), p, s as int) < w.m().finals.len()
                &&& w.m().finals[path_end(w.m(), p, s as int)] is Some
            } implies listed(
            out@,
            path_cost(w.m(), p) + w.m().finals[path_end(w.m(), p, s as int)]->0,
            path_out(w.m(), p),
        ) by {
            if p.len() >= 1 {
                assert(fuel > 0);
                assert(0 <= p[0] < w.trs@.len());
            }
        }
    }
    out
}

/// The position of the cheapest result, the earliest among equals.
pub fn best_result(results: &Vec<(u64, Vec<u32>)>) -> (r: Option<usize>)
    ensures
        match r {
            Some(j) => j < results@.len() && (forall|x: int|
                0 <= x < results@.len() ==> (#[trigger] results@[x]).0 >= results@[j as int].0)
                && (forall|x: int| 0 <= x < j ==> (#[trigger] results@[x]).0 > results@[j as int].0),
            None => results@.len() == 0,
        },
{
    let n: usize = results.len();
    if n == 0 {
        return None;
    }
    let mut best: usize = 0;
    let mut k: usize = 1;
    while k < n
        invariant
            1 <= k <= n,
            n == results@.len(),
            best < k,
            forall|x: int| 0 <= x < k ==> (#[trigger] results@[x]).0 >= results@[best as int].0,
            forall|x: int| 0 <= x < best ==> (#[trigger] results@[x]).0 > results@[best as int].0,
        decreases n - k,
    {
        if results[k].0 < results[best].0 {
            best = k;
        }
        k = k + 1;
    }
    Some(best)
}

/// Whether two label strings are the same.
fn labels_eq(a: &Vec<u32>, b: &Vec<u32>) -> (r: bool)
    ensures
        r == (a@ == b@),
{
    let n: usize = a.len();
    if n != b.len() {
        proof {
            assert(a@ != b@);
        }
        return false;
    }
    let mut k: usize = 0;
    while k < n
        invariant
            0 <= k <= n,
            n == a@.len(),
            n == b@.len(),
            forall|x: int| 0 <= x < k ==> a@[x] == b@[x],
        decreases n - k,
    {
        if a[k] != b[k] {
            return false;
        }
        k = k + 1;
    }
    proof {
        assert(a@ =~= b@);
    }
    true
}

/// The non-epsilon labels of a label string, as the validator compares them.
fn nz_vec(ls: &Vec<u32>) -> (r: Vec<u32>)
    ensures
        u32s(r@) == nz(u32s(ls@)),
{
    let n: usize = ls.len();
    let mut r: Vec<u32> = Vec::new();
    let mut k: usize = n;
    while k > 0
        invariant
            0 <= k <= n,
            n == ls@.len(),
            u32s(r@) =~= nz_from(u32s(ls@), k as int),
        decreases k,
    {
        k = k - 1;
        let l: u32 = ls[k];
        if l != 0 {
            let mut nr: Vec<u32> = Vec::new();
            nr.push(l);
            let rl: usize = r.len();
            let mut x: usize = 0;
            while x < rl
                invariant
                    0 <= x <= rl,
                    rl == r@.len(),
                    nr@ =~= seq![l] + r@.subrange(0, x as int),
                decreases rl - x,
            {
                nr.push(r[x]);
                proof {
                    assert(nr@ =~= seq![l] + r@.subrange(0, x + 1));
                }
                x = x + 1;
            }
            proof {
                assert(r@.subrange(0, rl as int) =~= r@);
            }
            r = nr;
        }
        proof {
            assert(u32s(r@) =~= nz_from(u32s(ls@), k as int));
        }
    }
    proof {
        assert(u32s(r@) =~= nz(u32s(ls@)));
    }
    r
}

/// Position `j` holds a cheapest result, and the earliest among equals.
pub open spec fn is_best(rs: Seq<(u64, Vec<u32>)>, j: int) -> bool {
    &&& 0 <= j < rs.len()
    &&& forall|x: int| 0 <= x < rs.len() ==> (#[trigger] rs[x]).0 >= rs[j].0
    &&& forall|x: int| 0 <= x < j ==> (#[trigger] rs[x]).0 > rs[j].0
}

/// The earliest cheapest result emits exactly `outl`.
pub open spec fn best_output_is(rs: Seq<(u64, Vec<u32>)>, outl: Seq<int>) -> bool {
    exists|j: int| #[trigger] is_best(rs, j) && u32s(rs[j].1@) == outl
}

/// The earliest-cheapest position is unique.
proof fn lemma_best_unique(rs: Seq<(u64, Vec<u32>)>, j1: int, j2: int)
    requires
        is_best(rs, j1),
        is_best(rs, j2),
    ensures
        j1 == j2,
{
    if j1 < j2 {
        assert(rs[j1].0 > rs[j2].0);
        assert(rs[j1].0 >= rs[j2].0);
        assert(rs[j2].0 >= rs[j1].0);
    } else if j2 < j1 {
        assert(rs[j2].0 > rs[j1].0);
        assert(rs[j1].0 >= rs[j2].0);
        assert(rs[j2].0 >= rs[j1].0);
    }
}

/// Whether the earliest cheapest collected result emits exactly the labels
/// of `expv`: the validator's decision, pinned as a function of the
/// collected results alone.
pub fn decide_best(results: &Vec<(u64, Vec<u32>)>, expv: &Vec<u32>) -> (r: bool)
    ensures
        r == best_output_is(results@, u32s(expv@)),
{
    match best_result(results) {
        Some(j) => {
            let hit = labels_eq(&results[j].1, expv);
            proof {
                assert(is_best(results@, j as int));
                if hit {
                    assert(u32s(results@[j as int].1@) == u32s(expv@));
                } else {
                    if best_output_is(results@, u32s(expv@)) {
                        let j2 = choose|j2: int|
                            #[trigger] is_best(results@, j2) && u32s(results@[j2].1@) == u32s(
                                expv@,
                            );
                        lemma_best_unique(results@, j as int, j2);
                        assert(u32s(results@[j as int].1@).len() == results@[j as int].1@.len());
                        assert(u32s(expv@).len() == expv@.len());
                        assert(results@[j as int].1@.len() == expv@.len());
                        assert forall|x: int|
                            0 <= x < results@[j as int].1@.len() implies results@[j as int].1@[x]
                            == expv@[x] by {
                            assert(u32s(results@[j as int].1@)[x] == u32s(expv@)[x]);
                        }
                        assert(results@[j as int].1@ =~= expv@);
                    }
                }
            }
            hit
        },
        None => {
            proof {
                if best_output_is(results@, u32s(expv@)) {
                    let j2 = choose|j2: int|
                        #[trigger] is_best(results@, j2) && u32s(results@[j2].1@) == u32s(expv@);
                }
            }
            false
        },
    }
}

/// Whether some collected result emits exactly the labels of `outl`: the
/// reachability decision, pinned as a function of the collected results
/// alone.
pub fn any_output(results: &Vec<(u64, Vec<u32>)>, outl: &Vec<u32>) -> (r: bool)
    ensures
        r == exists|j: int|
            0 <= j < results@.len() && u32s((#[trigger] results@[j]).1@) == u32s(outl@),
{
    let n: usize = results.len();
    let mut k: usize = 0;
    while k < n
        invariant
            0 <= k <= n,
            n == results@.len(),
            forall|j: int| 0 <= j < k ==> u32s((#[trigger] results@[j]).1@) != u32s(outl@),
        decreases n - k,
    {
        if labels_eq(&results[k].1, outl) {
            proof {
                assert(u32s(results@[k as int].1@) == u32s(outl@));
            }
            return true;
        }
        proof {
            if u32s(results@[k as int].1@) == u32s(outl@) {
                assert(u32s(results@[k as int].1@).len() == results@[k as int].1@.len());
                assert(u32s(outl@).len() == outl@.len());
                assert(results@[k as int].1@.len() == outl@.len());
                assert forall|x: int|
                    0 <= x < results@[k as int].1@.len() implies results@[k as int].1@[x]
                    == outl@[x] by {
                    assert(u32s(results@[k as int].1@)[x] == u32s(outl@)[x]);
                }
                assert(results@[k as int].1@ =~= outl@);
            }
        }
        k = k + 1;
    }
    false
}

/// The digit symbols of tone annotations.
fn digit_syms() -> (r: Vec<String>)
    ensures
        syms_view(r@) =~= seq!["1"@, "2"@, "3"@, "4"@],
{
    let mut v: Vec<String> = Vec::new();
    v.push("1".to_owned());
    v.push("2".to_owned());
    v.push("3".to_owned());
    v.push("4".to_owned());
    proof {
        assert(syms_view(v@) =~= seq!["1"@, "2"@, "3"@, "4"@]);
    }
    v
}

/// A class of exactly the four digit symbols.
pub open spec fn is_digit_class(n: RegexAST) -> bool {
    n is Class && syms_view(n->Class_0@) =~= seq!["1"@, "2"@, "3"@, "4"@]
}

/// The language of the fixed two-rule normalization script built from the
/// given pair of rules.
pub open spec fn norm_aw(
    st: Seq<Seq<char>>,
    ra: RewriteRule,
    rb: RewriteRule,
    i: Seq<int>,
    o: Seq<int>,
    c: int,
) -> bool {
    script_aw(st, seq![Statement::Rule(ra), Statement::Rule(rb)], 2, i, o, c)
}

/// The first normalization rule: between a brace-and-digit-run left context
/// and an empty right context, an arrow-led bracketed tone annotation is
/// consumed, with a target whose symbol stands outside ordinary tables.
pub open spec fn is_norm_rule_a(r: RewriteRule) -> bool {
    &&& r.left is Group
    &&& r.left->Group_0@.len() == 2
    &&& r.left->Group_0@[0] == RegexAST::Char('{')
    &&& r.left->Group_0@[1] is Star
    &&& is_digit_class(*r.left->Group_0@[1]->Star_0)
    &&& r.source is Group
    &&& r.source->Group_0@.len() == 3
    &&& r.source->Group_0@[0] is Class
    &&& syms_view(r.source->Group_0@[0]->Class_0@) =~= seq![">"@]
    &&& r.source->Group_0@[1] is Star
    &&& (*r.source->Group_0@[1]->Star_0) is Class
    &&& syms_view((*r.source->Group_0@[1]->Star_0)->Class_0@) =~= seq![
        "1"@,
        "2"@,
        "3"@,
        "4"@,
        ">"@,
    ]
    &&& r.source->Group_0@[2] == RegexAST::Char('}')
    &&& r.right == RegexAST::Epsilon
    &&& r.target is Group
    &&& r.target->Group_0@ =~= seq![RegexAST::Char('0')]
}

/// The second normalization rule: an opening brace before one or more
/// digits.
pub open spec fn is_norm_rule_b(r: RewriteRule) -> bool {
    &&& r.left == RegexAST::Epsilon
    &&& r.source is Group
    &&& r.source->Group_0@ =~= seq![RegexAST::Char('{')]
    &&& r.right is Plus
    &&& is_digit_class(*r.right->Plus_0)
    &&& r.target is Group
    &&& r.target->Group_0@ =~= seq![RegexAST::Char('0')]
}

/// The fixed normalization relation: a hand-authored two-rule script,
/// compiled through the ordinary pipeline, whose first rule deletes a
/// bracketed numeral-tone annotation after a digit run and whose second
/// deletes an opening brace before one or more digits.
pub fn get_fst_g3_to_base(symt: &SymTab) -> (r: Result<Wfst, FstError>)
    requires
        1 <= symt@.len() <= 0xffff_ffff,
    ensures
        r matches Ok(w) ==> w.wf() && exists|ra: RewriteRule, rb: RewriteRule|
            {
                &&& #[trigger] is_norm_rule_a(ra)
                &&& #[trigger] is_norm_rule_b(rb)
                &&& forall|i: Seq<int>, o: Seq<int>, c: int|
                    #![auto]
                    aw(w.m(), i, o, c) <==> script_aw(
                        symt@,
                        seq![Statement::Rule(ra), Statement::Rule(rb)],
                        2,
                        i,
                        o,
                        c,
                    )
            },
        r matches Err(e) ==> e == FstError::TooLarge || e == FstError::Algebra,
{
    let mut arrow_digits: Vec<String> = digit_syms();
    arrow_digits.push(">".to_owned());
    let mut arrow_only: Vec<String> = Vec::new();
    arrow_only.push(">".to_owned());
    let rule_a = RewriteRule {
        left: RegexAST::Group(
            vec![RegexAST::Char('{'), RegexAST::Star(Box::new(RegexAST::Class(digit_syms())))],
        ),
        source: RegexAST::Group(
            vec![
                RegexAST::Class(arrow_only),
                RegexAST::Star(Box::new(RegexAST::Class(arrow_digits))),
                RegexAST::Char('}'),
            ],
        ),
        right: RegexAST::Epsilon,
        target: RegexAST::Group(vec![RegexAST::Char('0')]),
    };
    let rule_b = RewriteRule {
        left: RegexAST::Epsilon,
        source: RegexAST::Group(vec![RegexAST::Char('{')]),
        right: RegexAST::Plus(Box::new(RegexAST::Class(digit_syms()))),
        target: RegexAST::Group(vec![RegexAST::Char('0')]),
    };
    proof {
        assert(is_norm_rule_a(rule_a));
        assert(is_norm_rule_b(rule_b));
    }
    let ghost ra: RewriteRule = rule_a;
    let ghost rb: RewriteRule = rule_b;
    let script: Vec<Statement> = vec![Statement::Rule(rule_a), Statement::Rule(rule_b)];
    proof {
        assert(script@ =~= seq![Statement::Rule(ra), Statement::Rule(rb)]);
        let va: Seq<RegexAST> = ra.source->Group_0@;
        assert(va[0] != RegexAST::Char('>') && va[1] != RegexAST::Char('>') && va[2]
            != RegexAST::Char('>'));
        assert(arrow_idx(va, 3) is None);
        assert(arrow_idx(va, 2) is None);
        assert(arrow_idx(va, 1) is None);
        assert(arrow_idx(va, 0) is None);
        assert(spec_rule_ok(ra));
        let vb: Seq<RegexAST> = rb.source->Group_0@;
        assert(vb[0] != RegexAST::Char('>'));
        assert(arrow_idx(vb, 1) is None);
        assert(arrow_idx(vb, 0) is None);
        assert(spec_rule_ok(rb));
        assert(crate::rewrite::rules_ok(script@, 0));
        assert(script@[0] == Statement::Rule(ra));
        assert(crate::rewrite::rules_ok(script@, 1));
        assert(script@[1] == Statement::Rule(rb));
        assert(crate::rewrite::rules_ok(script@, 2));
    }
    compile_script(symt, script)
}

/// Applies the relation to one test pair: the input and the expected form
/// are wrapped in boundary markers, the relation is composed between the
/// input acceptor and — unless the pair is in the intermediate
/// representation — the normalization relation and the expected-form
/// acceptor; accepting paths of at most `fuel` arcs are then ranked by cost,
/// and the pair passes when the best one emits the expected labels.
/// A pass is never claimed falsely: on `Ok(true)` the relation really maps
/// the wrapped input to the wrapped expected form (or, for a pair that is
/// not intermediate, to some form the normalization maps on).
#[verifier::loop_isolation(false)]
#[verifier::rlimit(60)]
pub fn validate(
    relation: &Wfst,
    symt: &SymTab,
    input: &str,
    expected: &str,
    is_intermediate: bool,
    fuel: u64,
) -> (r: Result<bool, FstError>)
    requires
        relation.wf(),
        1 <= symt@.len() <= 0xffff_ffff,
        fuel <= 0xffff_ffff,
    ensures
        r == Ok::<bool, FstError>(true) && is_intermediate ==> exists|c: int|
            0 <= c && #[trigger] aw(
                relation.m(),
                nz(spec_wrapped(symt@, input@)),
                nz(spec_wrapped(symt@, expected@)),
                c,
            ),
        r == Ok::<bool, FstError>(true) && !is_intermediate ==> exists|
            cx: int,
            mid: Seq<int>,
            c2x: int,
            ra: RewriteRule,
            rb: RewriteRule,
        |
            {
                &&& 0 <= cx
                &&& 0 <= c2x
                &&& #[trigger] aw(relation.m(), nz(spec_wrapped(symt@, input@)), mid, cx)
                &&& is_norm_rule_a(ra)
                &&& is_norm_rule_b(rb)
                &&& #[trigger] norm_aw(
                    symt@,
                    ra,
                    rb,
                    mid,
                    nz(spec_wrapped(symt@, expected@)),
                    c2x,
                )
            },
        r matches Err(e) ==> e == FstError::Algebra || e == FstError::TooLarge,
{
    let e2e0 = match apply_fst_to_string(symt, relation, input) {
        Ok(w) => w,
        Err(e) => {
            return Err(e);
        },
    };
    let e2e = match minimize_fst(&e2e0, true) {
        Some(w) => w,
        None => {
            return Err(FstError::Algebra);
        },
    };
    let ghost mut genm: Mach = e2e.m();
    let ghost mut basem: Mach = e2e.m();
    let composed = if is_intermediate {
        match apply_fst_to_output_string(symt, &e2e, expected) {
            Ok(w) => w,
            Err(e) => {
                return Err(e);
            },
        }
    } else {
        let base = match get_fst_g3_to_base(symt) {
            Ok(w) => w,
            Err(e) => {
                return Err(e);
            },
        };
        let gen = match apply_fst_to_output_string(symt, &base, expected) {
            Ok(w) => w,
            Err(e) => {
                return Err(e);
            },
        };
        let x = match compose_fst(&e2e, &gen) {
            Some(x) => x,
            None => {
                return Err(FstError::Algebra);
            },
        };
        proof {
            genm = gen.m();
            basem = base.m();
            assert(forall|i: Seq<int>, o: Seq<int>, c: int|
                #![auto]
                aw(genm, i, o, c) <==> comp_aw(
                    basem,
                    spec_linear(spec_wrapped(symt@, expected@)),
                    i,
                    o,
                    c,
                ));
            assert(exists|ra: RewriteRule, rb: RewriteRule|
                {
                    &&& #[trigger] is_norm_rule_a(ra)
                    &&& #[trigger] is_norm_rule_b(rb)
                    &&& forall|i: Seq<int>, o: Seq<int>, c: int|
                        #![auto]
                        aw(basem, i, o, c) <==> script_aw(
                            symt@,
                            seq![Statement::Rule(ra), Statement::Rule(rb)],
                            2,
                            i,
                            o,
                            c,
                        )
                });
        }
        x
    };
    proof {
        assert(composed.m().start < composed.m().nstates());
    }
    let paths = paths_from(&composed, composed.start, fuel);
    let wexp = wrapped_labels(symt, expected);
    let expv = nz_vec(&wexp);
    let ok: bool = decide_best(&paths, &expv);
    proof {
        if ok {
            let j = choose|j: int|
                #[trigger] is_best(paths@, j) && u32s(paths@[j].1@) == u32s(expv@);
            let m = composed.m();
            let p = lemma_witness_take(
                m,
                composed.start as int,
                fuel as int,
                paths@[j].0 as int,
                u32s(paths@[j].1@),
            );
            let wex = nz(spec_wrapped(symt@, expected@));
            assert(u32s(paths@[j].1@) == wex);
            let cin = path_in(m, p);
            let ctot = path_cost(m, p) + m.finals[path_end(m, p, m.start)]->0;
            assert(accepting(m, p, cin, wex, ctot));
            assert(aw(m, cin, wex, ctot));
            if is_intermediate {
                let (mid, c1, c2) = choose|mid: Seq<int>, c1: int, c2: int|
                    0 <= c1 && 0 <= c2 && c1 + c2 <= ctot && aw(e2e.m(), cin, mid, c1) && aw(
                        spec_linear(spec_wrapped(symt@, expected@)),
                        mid,
                        wex,
                        c2,
                    );
                let q = choose|q: Seq<int>|
                    accepting(spec_linear(spec_wrapped(symt@, expected@)), q, mid, wex, c2);
                lemma_linear_sound(spec_wrapped(symt@, expected@), q, 0);
                assert(mid == wex);
                assert(aw(e2e0.m(), cin, wex, c1));
                let (mid2, d1, d2) = choose|mid2: Seq<int>, d1: int, d2: int|
                    0 <= d1 && 0 <= d2 && d1 + d2 <= c1 && aw(
                        spec_linear(spec_wrapped(symt@, input@)),
                        cin,
                        mid2,
                        d1,
                    ) && aw(relation.m(), mid2, wex, d2);
                let q2 = choose|q2: Seq<int>|
                    accepting(spec_linear(spec_wrapped(symt@, input@)), q2, cin, mid2, d1);
                lemma_linear_sound(spec_wrapped(symt@, input@), q2, 0);
                assert(mid2 == nz(spec_wrapped(symt@, input@)));
                assert(aw(relation.m(), nz(spec_wrapped(symt@, input@)), wex, d2));
            } else {
                let (mid, c1, c2) = choose|mid: Seq<int>, c1: int, c2: int|
                    0 <= c1 && 0 <= c2 && c1 + c2 <= ctot && aw(e2e.m(), cin, mid, c1) && aw(
                        genm,
                        mid,
                        wex,
                        c2,
                    );
                assert(aw(e2e0.m(), cin, mid, c1));
                let (mid2, d1, d2) = choose|mid2: Seq<int>, d1: int, d2: int|
                    0 <= d1 && 0 <= d2 && d1 + d2 <= c1 && aw(
                        spec_linear(spec_wrapped(symt@, input@)),
                        cin,
                        mid2,
                        d1,
                    ) && aw(relation.m(), mid2, mid, d2);
                let q2 = choose|q2: Seq<int>|
                    accepting(spec_linear(spec_wrapped(symt@, input@)), q2, cin, mid2, d1);
                lemma_linear_sound(spec_wrapped(symt@, input@), q2, 0);
                assert(mid2 == nz(spec_wrapped(symt@, input@)));
                assert(aw(relation.m(), nz(spec_wrapped(symt@, input@)), mid, d2));
                let (mid3, e1, e2) = choose|mid3: Seq<int>, e1: int, e2: int|
                    0 <= e1 && 0 <= e2 && e1 + e2 <= c2 && aw(basem, mid, mid3, e1) && aw(
                        spec_linear(spec_wrapped(symt@, expected@)),
                        mid3,
                        wex,
                        e2,
                    );
                let q3 = choose|q3: Seq<int>|
                    accepting(spec_linear(spec_wrapped(symt@, expected@)), q3, mid3, wex, e2);
                lemma_linear_sound(spec_wrapped(symt@, expected@), q3, 0);
                assert(mid3 == wex);
                assert(aw(basem, mid, wex, e1));
                let (ra, rb) = choose|ra: RewriteRule, rb: RewriteRule|
                    {
                        &&& #[trigger] is_norm_rule_a(ra)
                        &&& #[trigger] is_norm_rule_b(rb)
                        &&& forall|i2: Seq<int>, o2: Seq<int>, cc: int|
                            #![auto]
                            aw(basem, i2, o2, cc) <==> script_aw(
                                symt@,
                                seq![Statement::Rule(ra), Statement::Rule(rb)],
                                2,
                                i2,
                                o2,
                                cc,
                            )
                    };
                assert(norm_aw(symt@, ra, rb, mid, wex, e1));
            }
        }
    }
    Ok(ok)
}

/// Whether the relation maps the label string `input` to `output` at some
/// cost, looking at accepting walks of at most `fuel` arcs through the
/// composition with the input acceptor. A positive answer is never claimed
/// falsely: on `true` the relation accepts the pair.
#[verifier::loop_isolation(false)]
pub fn maps_pair(m: &Wfst, input: &Vec<u32>, output: &Vec<u32>, fuel: u64) -> (r: bool)
    requires
        m.wf(),
        fuel <= 0xffff_ffff,
    ensures
        r ==> exists|c: int|
            0 <= c && #[trigger] aw(m.m(), nz(u32s(input@)), u32s(output@), c),
{
    let lin = linear_fst(input);
    let composed = match compose_fst(&lin, m) {
        Some(x) => x,
        None => {
            return false;
        },
    };
    proof {
        assert(composed.m().start < composed.m().nstates());
    }
    let paths = paths_from(&composed, composed.start, fuel);
    let hit: bool = any_output(&paths, output);
    proof {
        if hit {
            let j = choose|j: int|
                0 <= j < paths@.len() && u32s((#[trigger] paths@[j]).1@) == u32s(output@);
            let cm = composed.m();
            let p = lemma_witness_take(
                cm,
                cm.start,
                fuel as int,
                paths@[j].0 as int,
                u32s(paths@[j].1@),
            );
            let cin = path_in(cm, p);
            let ctot = path_cost(cm, p) + cm.finals[path_end(cm, p, cm.start)]->0;
            assert(accepting(cm, p, cin, u32s(output@), ctot));
            assert(aw(cm, cin, u32s(output@), ctot));
            let (mid, c1, c2) = choose|mid: Seq<int>, c1: int, c2: int|
                0 <= c1 && 0 <= c2 && c1 + c2 <= ctot && aw(
                    spec_linear(u32s(input@)),
                    cin,
                    mid,
                    c1,
                ) && aw(m.m(), mid, u32s(output@), c2);
            let q = choose|q: Seq<int>| accepting(spec_linear(u32s(input@)), q, cin, mid, c1);
            lemma_linear_sound(u32s(input@), q, 0);
            assert(mid == nz(u32s(input@)));
            assert(aw(m.m(), nz(u32s(input@)), u32s(output@), c2));
        }
    }
    hit
}

} // verus!
