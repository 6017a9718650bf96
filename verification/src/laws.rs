//! The behavioural laws of the compiler, stated and proved over the
//! specification-level machines that every contract speaks of.

use vstd::prelude::*;
use crate::ast::RegexAST;
use crate::ast::RewriteRule;
use crate::compiler::spec_compile;
use crate::compiler::spec_single;
use crate::lang::accepting;
use crate::lang::aw;
use crate::lang::lang_eq;
use crate::lang::lemma_path_append;
use crate::lang::lemma_prefix_fwd;
use crate::lang::lemma_shift_fwd;
use crate::lang::lemma_single_step;
use crate::lang::path_cost;
use crate::lang::path_end;
use crate::lang::path_in;
use crate::lang::path_ok;
use crate::lang::path_out;
use crate::lang::shift_path;
use crate::machine::GTr;
use crate::machine::Mach;
use crate::machine::glue_arcs;
use crate::machine::lemma_glue_arcs_complete;
use crate::machine::lemma_glue_arcs_ok;
use crate::machine::spec_closure_plus;
use crate::machine::spec_closure_star;
use crate::machine::spec_concat;
use crate::machine::spec_seed;
use crate::rewrite::spec_rule_chain;
use crate::tables::spec_label;

verus! {

/// `s` repeated `k` times.
pub open spec fn rep(s: Seq<int>, k: int) -> Seq<int>
    decreases k,
{
    if k <= 0 {
        Seq::empty()
    } else {
        rep(s, k - 1) + s
    }
}

/// The machine a single known character compiles to.
pub open spec fn char_mach(l: int) -> Mach {
    spec_concat(spec_seed(), spec_single(l))
}

/// In the compiled character machine, every accepting walk is the one walk
/// through the glue arc and the character arc.
proof fn lemma_char_walks(l: int, p: Seq<int>, s: int)
    requires
        path_ok(char_mach(l), p, s),
        0 <= s < 3,
        char_mach(l).finals[path_end(char_mach(l), p, s)] is Some,
        0 <= path_end(char_mach(l), p, s) < 3,
        l != 0,
    ensures
        s == 2 ==> p.len() == 0,
        s <= 1 ==> path_in(char_mach(l), p) == seq![l] && path_out(char_mach(l), p) == seq![l]
            && path_cost(char_mach(l), p) == 0 && path_end(char_mach(l), p, s) == 2,
        s == 2 ==> path_in(char_mach(l), p) == Seq::<int>::empty() && path_out(char_mach(l), p)
            == Seq::<int>::empty() && path_cost(char_mach(l), p) == 0,
    decreases p.len(),
{
    let m = char_mach(l);
    assert(glue_arcs(spec_seed().finals, 0, 1) =~= Seq::<GTr>::empty());
    assert(glue_arcs(spec_seed().finals, 1, 1) =~= seq![GTr { from: 0, il: 0, ol: 0, cost: 0, to: 1 }]);
    assert(m.trs =~= seq![
        GTr { from: 0, il: 0, ol: 0, cost: 0, to: 1 },
        GTr { from: 1, il: l, ol: l, cost: 0, to: 2 },
    ]);
    assert(m.finals =~= seq![None, None, Some(0int)]);
    if p.len() == 0 {
        assert(path_end(m, p, s) == s);
        assert(s == 2);
        assert(path_in(m, p) =~= Seq::<int>::empty());
        assert(path_out(m, p) =~= Seq::<int>::empty());
    } else {
        assert(m.trs[p[0]].from == s);
        if s == 2 {
            assert(false);
        } else if s == 0 {
            assert(p[0] == 0);
            lemma_char_walks(l, p.drop_first(), 1);
            assert(path_in(m, p) =~= seq![l]);
            assert(path_out(m, p) =~= seq![l]);
        } else {
            assert(p[0] == 1);
            lemma_char_walks(l, p.drop_first(), 2);
            assert(path_in(m, p) =~= seq![l]);
            assert(path_out(m, p) =~= seq![l]);
        }
    }
}

/// A character present in the symbol table compiles to a fragment that
/// accepts exactly that one symbol, consumed and re-emitted at cost zero,
/// and nothing else.
pub proof fn lemma_char_exact(
    st: Seq<Seq<char>>,
    mac: Seq<(Seq<char>, RegexAST)>,
    ch: char,
    depth: int,
    l: int,
    i: Seq<int>,
    o: Seq<int>,
    c: int,
)
    requires
        spec_label(st, seq![ch], 0) == Some(l),
        l >= 1,
    ensures
        aw(spec_compile(st, mac, RegexAST::Char(ch), depth), i, o, c) <==> (i == seq![l] && o
            == seq![l] && c >= 0),
{
    let m = char_mach(l);
    assert(spec_compile(st, mac, RegexAST::Char(ch), depth) == m);
    assert(glue_arcs(spec_seed().finals, 0, 1) =~= Seq::<GTr>::empty());
    assert(glue_arcs(spec_seed().finals, 1, 1) =~= seq![GTr { from: 0, il: 0, ol: 0, cost: 0, to: 1 }]);
    assert(m.trs =~= seq![
        GTr { from: 0, il: 0, ol: 0, cost: 0, to: 1 },
        GTr { from: 1, il: l, ol: l, cost: 0, to: 2 },
    ]);
    assert(m.finals =~= seq![None, None, Some(0int)]);
    if aw(m, i, o, c) {
        let p = choose|p: Seq<int>| accepting(m, p, i, o, c);
        lemma_char_walks(l, p, 0);
        assert(i == seq![l] && o == seq![l] && c >= 0);
    }
    if i == seq![l] && o == seq![l] && c >= 0 {
        lemma_single_step(m, 0, 0);
        lemma_single_step(m, 1, 1);
        lemma_path_append(m, seq![0int], seq![1int], 0);
        let p = seq![0int] + seq![1int];
        assert(path_in(m, p) =~= seq![l]);
        assert(path_out(m, p) =~= seq![l]);
        assert(accepting(m, p, i, o, c));
    }
}

/// An accepting walk of the loop region: `k` passes through the body joined
/// by the loop-back arcs. The machine `m` must hold the body's transitions
/// as a prefix, the loop-back arcs as the following block, and the body's
/// acceptance unchanged.
proof fn lemma_rep_walk(body: Mach, m: Mach, i: Seq<int>, o: Seq<int>, c: int, k: int) -> (q: Seq<
    int,
>)
    requires
        body.wf(),
        aw(body, i, o, c),
        k >= 1,
        body.trs.len() <= m.trs.len(),
        forall|x: int| 0 <= x < body.trs.len() ==> m.trs[x] == body.trs[x],
        forall|x: int|
            0 <= x < glue_arcs(body.finals, body.nstates(), body.start).len() ==> m.trs[body.trs.len()
                + x] == glue_arcs(body.finals, body.nstates(), body.start)[x],
        body.trs.len() + glue_arcs(body.finals, body.nstates(), body.start).len() <= m.trs.len(),
        forall|x: int| 0 <= x < body.nstates() ==> m.finals[x] == body.finals[x],
        body.nstates() <= m.finals.len(),
    ensures
        path_ok(m, q, body.start),
        0 <= path_end(m, q, body.start) < body.nstates(),
        body.finals[path_end(m, q, body.start)] is Some,
        path_in(m, q) == rep(i, k),
        path_out(m, q) == rep(o, k),
        path_cost(m, q) + body.finals[path_end(m, q, body.start)]->0 <= k * c,
    decreases k,
{
    let glue = glue_arcs(body.finals, body.nstates(), body.start);
    let ta = body.trs.len() as int;
    let p = choose|p: Seq<int>| accepting(body, p, i, o, c);
    lemma_prefix_fwd(body, m, p, body.start);
    let e = path_end(body, p, body.start);
    if k == 1 {
        assert(rep(i, 0) =~= Seq::<int>::empty());
        assert(rep(o, 0) =~= Seq::<int>::empty());
        assert(rep(i, 1) =~= i);
        assert(rep(o, 1) =~= o);
        assert(1 * c == c);
        p
    } else {
        let qk = lemma_rep_walk(body, m, i, o, c, k - 1);
        lemma_glue_arcs_complete(body.finals, body.nstates(), body.start, e);
        lemma_glue_arcs_ok(body.finals, body.nstates(), body.start);
        let j = choose|j: int|
            0 <= j < glue.len() && #[trigger] glue[j] == (GTr {
                from: e,
                il: 0,
                ol: 0,
                cost: body.finals[e]->0,
                to: body.start,
            });
        assert(m.trs[ta + j] == glue[j]);
        lemma_single_step(m, ta + j, e);
        lemma_path_append(m, p, seq![ta + j], body.start);
        lemma_path_append(m, p + seq![ta + j], qk, body.start);
        let q = (p + seq![ta + j]) + qk;
        assert(path_in(m, q) =~= i + rep(i, k - 1));
        assert(path_out(m, q) =~= o + rep(o, k - 1));
        assert(rep(i, k) =~= rep(i, k - 1) + i);
        assert(i + rep(i, k - 1) =~= rep(i, k - 1) + i) by {
            lemma_rep_comm(i, k - 1);
        }
        assert(o + rep(o, k - 1) =~= rep(o, k - 1) + o) by {
            lemma_rep_comm(o, k - 1);
        }
        assert(path_cost(m, q) + body.finals[path_end(m, q, body.start)]->0 <= k * c) by {
            assert(path_cost(m, p) + body.finals[e]->0 <= c);
            assert(path_cost(m, qk) + body.finals[path_end(m, qk, body.start)]->0 <= (k - 1) * c);
            assert(k * c == c + (k - 1) * c) by (nonlinear_arith);
        }
        q
    }
}

/// Appending one more copy on either side is the same.
proof fn lemma_rep_comm(s: Seq<int>, k: int)
    ensures
        s + rep(s, k) =~= rep(s, k) + s,
    decreases k,
{
    if k <= 0 {
        assert(rep(s, k) =~= Seq::<int>::empty());
    } else {
        lemma_rep_comm(s, k - 1);
        assert(s + rep(s, k) =~= (s + rep(s, k - 1)) + s);
        assert(rep(s, k) + s =~= (rep(s, k - 1) + s) + s);
    }
}

/// The star of a pattern accepts the empty string, and for every pair the
/// pattern accepts, every number of repetitions of it, at proportional
/// cost.
pub proof fn lemma_star_accepts(
    st: Seq<Seq<char>>,
    mac: Seq<(Seq<char>, RegexAST)>,
    n: RegexAST,
    depth: int,
    i: Seq<int>,
    o: Seq<int>,
    c: int,
    k: int,
)
    requires
        spec_compile(st, mac, n, depth).wf(),
        k >= 0,
        k >= 1 ==> aw(spec_compile(st, mac, n, depth), i, o, c) && c >= 0,
    ensures
        aw(
            spec_compile(st, mac, RegexAST::Star(Box::new(n)), depth),
            rep(i, k),
            rep(o, k),
            k * c,
        ),
{
    let body = spec_compile(st, mac, n, depth);
    let star = spec_closure_star(body);
    let m = spec_compile(st, mac, RegexAST::Star(Box::new(n)), depth);
    assert(m == spec_concat(spec_seed(), star));
    let glue = glue_arcs(body.finals, body.nstates(), body.start);
    let ta = body.trs.len() as int;
    let ns = body.nstates();
    assert(star.trs =~= body.trs + glue + seq![GTr { from: ns, il: 0, ol: 0, cost: 0, to: body.start }]);
    let starshift = star.trs.map(|x: int, t: GTr| t.shifted(1));
    assert(m.trs =~= Seq::<GTr>::empty() + glue_arcs(spec_seed().finals, 1, star.start + 1)
        + starshift);
    assert(glue_arcs(spec_seed().finals, 0, star.start + 1) =~= Seq::<GTr>::empty());
    assert(glue_arcs(spec_seed().finals, 1, star.start + 1) =~= seq![
        GTr { from: 0, il: 0, ol: 0, cost: 0, to: star.start + 1 },
    ]);
    assert(m.trs[0] == (GTr { from: 0, il: 0, ol: 0, cost: 0, to: star.start + 1 }));
    assert forall|x: int| 0 <= x < star.trs.len() implies m.trs[1 + x] == (#[trigger] star.trs[x]).shifted(
        1,
    ) by {
        assert(starshift[x] == star.trs[x].shifted(1));
    }
    lemma_single_step(m, 0, 0);
    if k == 0 {
        let q = seq![0int];
        assert(rep(i, 0) =~= Seq::<int>::empty());
        assert(rep(o, 0) =~= Seq::<int>::empty());
        assert(path_end(m, q, 0) == star.start + 1);
        assert(m.finals =~= Seq::new(1nat, |x: int| None::<int>) + star.finals);
        assert(m.finals[star.start + 1] == star.finals[star.start]);
        assert(star.finals[ns] == Some(0int));
        assert(accepting(m, q, rep(i, 0), rep(o, 0), 0));
        assert(0 * c == 0) by (nonlinear_arith);
    } else {
        let q = lemma_rep_walk(body, star, i, o, c, k);
        let e = path_end(star, q, body.start);
        lemma_shift_fwd(star, m, 1, 1, q, body.start);
        assert(m.trs[ta + tg_len(body) + 1] == star.trs[ta + glue.len()].shifted(1)) by {
            assert(star.trs[ta + glue.len() as int] == (GTr {
                from: ns,
                il: 0,
                ol: 0,
                cost: 0,
                to: body.start,
            }));
        }
        let arc: int = 1 + ta + glue.len();
        assert(m.trs[arc] == (GTr { from: ns + 1, il: 0, ol: 0, cost: 0, to: body.start + 1 }));
        lemma_single_step(m, arc, ns + 1);
        lemma_path_append(m, seq![0int], seq![arc], 0);
        lemma_path_append(m, seq![0int] + seq![arc], shift_path(q, 1), 0);
        let full = (seq![0int] + seq![arc]) + shift_path(q, 1);
        assert(path_in(m, full) =~= rep(i, k));
        assert(path_out(m, full) =~= rep(o, k));
        let efull = path_end(m, full, 0);
        assert(efull == e + 1);
        assert(m.finals =~= Seq::new(1nat, |x: int| None::<int>) + star.finals);
        assert(m.finals[e + 1] == star.finals[e]);
        assert(star.finals[e] == body.finals[e]);
        assert(accepting(m, full, rep(i, k), rep(o, k), k * c));
    }
}

/// Helper naming the loop-arc block length.
spec fn tg_len(body: Mach) -> int {
    glue_arcs(body.finals, body.nstates(), body.start).len() as int
}

/// The plus of a pattern accepts every positive number of repetitions of
/// every pair the pattern accepts, at proportional cost; in particular,
/// with one repetition, it accepts the empty string whenever the pattern
/// does.
pub proof fn lemma_plus_accepts(
    st: Seq<Seq<char>>,
    mac: Seq<(Seq<char>, RegexAST)>,
    n: RegexAST,
    depth: int,
    i: Seq<int>,
    o: Seq<int>,
    c: int,
    k: int,
)
    requires
        spec_compile(st, mac, n, depth).wf(),
        k >= 1,
        aw(spec_compile(st, mac, n, depth), i, o, c),
        c >= 0,
    ensures
        aw(
            spec_compile(st, mac, RegexAST::Plus(Box::new(n)), depth),
            rep(i, k),
            rep(o, k),
            k * c,
        ),
{
    let body = spec_compile(st, mac, n, depth);
    let plus = spec_closure_plus(body);
    let m = spec_compile(st, mac, RegexAST::Plus(Box::new(n)), depth);
    assert(m == spec_concat(spec_seed(), plus));
    let glue = glue_arcs(body.finals, body.nstates(), body.start);
    let ta = body.trs.len() as int;
    assert(plus.trs =~= body.trs + glue);
    let plusshift = plus.trs.map(|x: int, t: GTr| t.shifted(1));
    assert(m.trs =~= Seq::<GTr>::empty() + glue_arcs(spec_seed().finals, 1, plus.start + 1)
        + plusshift);
    assert(glue_arcs(spec_seed().finals, 0, plus.start + 1) =~= Seq::<GTr>::empty());
    assert(glue_arcs(spec_seed().finals, 1, plus.start + 1) =~= seq![
        GTr { from: 0, il: 0, ol: 0, cost: 0, to: plus.start + 1 },
    ]);
    assert(m.trs[0] == (GTr { from: 0, il: 0, ol: 0, cost: 0, to: plus.start + 1 }));
    assert forall|x: int| 0 <= x < plus.trs.len() implies m.trs[1 + x] == (#[trigger] plus.trs[x]).shifted(
        1,
    ) by {
        assert(plusshift[x] == plus.trs[x].shifted(1));
    }
    let q = lemma_rep_walk(body, plus, i, o, c, k);
    let e = path_end(plus, q, body.start);
    lemma_shift_fwd(plus, m, 1, 1, q, body.start);
    lemma_single_step(m, 0, 0);
    lemma_path_append(m, seq![0int], shift_path(q, 1), 0);
    let full = seq![0int] + shift_path(q, 1);
    assert(path_in(m, full) =~= rep(i, k));
    assert(path_out(m, full) =~= rep(o, k));
    let efull = path_end(m, full, 0);
    assert(efull == e + 1);
    assert(m.finals =~= Seq::new(1nat, |x: int| None::<int>) + plus.finals);
    assert(m.finals[e + 1] == plus.finals[e]);
    assert(plus.finals[e] == body.finals[e]);
    assert(accepting(m, full, rep(i, k), rep(o, k), k * c));
}

/// With the left context dropped, the assembled rule automaton does not
/// depend on the rule's left pattern at all: two rules that agree on
/// source, right context and target assemble to the same automaton.
pub proof fn lemma_drop_left_ignores_left(
    st: Seq<Seq<char>>,
    mac: Seq<(Seq<char>, RegexAST)>,
    r1: RewriteRule,
    r2: RewriteRule,
    depth: int,
)
    requires
        r1.source == r2.source,
        r1.right == r2.right,
        r1.target == r2.target,
    ensures
        spec_rule_chain(st, mac, r1, true, depth) == spec_rule_chain(st, mac, r2, true, depth),
{
}

/// Running the simplification pass twice yields an automaton
/// language-equivalent to running it once: each pass keeps the weighted
/// language, so the second changes nothing the first had not settled.
pub proof fn lemma_optimize_idempotent(w0: Mach, w1: Mach, w2: Mach)
    requires
        lang_eq(w1, w0),
        lang_eq(w2, w1),
    ensures
        lang_eq(w2, w0),
{
}

/// Removing epsilon transitions and then simplifying does not change the
/// accepted weighted language: both passes keep every accepted pair at its
/// least cost.
pub proof fn lemma_rm_eps_optimize_round_trip(w0: Mach, w1: Mach, w2: Mach)
    requires
        lang_eq(w1, w0),
        lang_eq(w2, w1),
    ensures
        lang_eq(w2, w0),
{
}

} // verus!