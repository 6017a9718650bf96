//! The weighted language of an automaton model: paths, their label strings
//! and costs, and acceptance within a cost bound. All contracts about
//! behaviour — as opposed to structure — are stated through these.

use vstd::prelude::*;
use crate::machine::GTr;
use crate::machine::Mach;
use crate::machine::glue_arcs;
use crate::machine::lemma_glue_arcs_complete;
use crate::machine::spec_concat;
use crate::machine::spec_seed;
use crate::machine::spec_union;

verus! {

/// `p` is a chain of indices into `m.trs` forming a walk from `from`.
pub open spec fn path_ok(m: Mach, p: Seq<int>, from: int) -> bool
    decreases p.len(),
{
    p.len() == 0 || {
        &&& 0 <= p[0] < m.trs.len()
        &&& m.trs[p[0]].from == from
        &&& path_ok(m, p.drop_first(), m.trs[p[0]].to)
    }
}

/// The state a walk from `from` ends in.
pub open spec fn path_end(m: Mach, p: Seq<int>, from: int) -> int
    decreases p.len(),
{
    if p.len() == 0 {
        from
    } else {
        path_end(m, p.drop_first(), m.trs[p[0]].to)
    }
}

/// The input string of a walk: its input labels, epsilons dropped.
pub open spec fn path_in(m: Mach, p: Seq<int>) -> Seq<int>
    decreases p.len(),
{
    if p.len() == 0 {
        Seq::empty()
    } else {
        (if 0 <= p[0] < m.trs.len() && m.trs[p[0]].il != 0 {
            seq![m.trs[p[0]].il]
        } else {
            Seq::empty()
        }) + path_in(m, p.drop_first())
    }
}

/// The output string of a walk: its output labels, epsilons dropped.
pub open spec fn path_out(m: Mach, p: Seq<int>) -> Seq<int>
    decreases p.len(),
{
    if p.len() == 0 {
        Seq::empty()
    } else {
        (if 0 <= p[0] < m.trs.len() && m.trs[p[0]].ol != 0 {
            seq![m.trs[p[0]].ol]
        } else {
            Seq::empty()
        }) + path_out(m, p.drop_first())
    }
}

/// The summed cost of a walk, acceptance cost not included.
pub open spec fn path_cost(m: Mach, p: Seq<int>) -> int
    decreases p.len(),
{
    if p.len() == 0 {
        0
    } else {
        (if 0 <= p[0] < m.trs.len() {
            m.trs[p[0]].cost
        } else {
            0
        }) + path_cost(m, p.drop_first())
    }
}

/// `p` is an accepting walk for `(i, o)` whose total cost, acceptance
/// included, is at most `c`.
pub open spec fn accepting(m: Mach, p: Seq<int>, i: Seq<int>, o: Seq<int>, c: int) -> bool {
    &&& path_ok(m, p, m.start)
    &&& 0 <= path_end(m, p, m.start) < m.finals.len()
    &&& m.finals[path_end(m, p, m.start)] is Some
    &&& path_in(m, p) == i
    &&& path_out(m, p) == o
    &&& path_cost(m, p) + m.finals[path_end(m, p, m.start)]->0 <= c
}

/// The automaton maps `i` to `o` within cost `c`. Quantified over every
/// bound `c`, this determines the least cost of each accepted pair, which is
/// what the tropical algorithms preserve.
pub open spec fn aw(m: Mach, i: Seq<int>, o: Seq<int>, c: int) -> bool {
    exists|p: Seq<int>| accepting(m, p, i, o, c)
}

/// The two automata accept the same pairs at the same least costs.
pub open spec fn lang_eq(a: Mach, b: Mach) -> bool {
    forall|i: Seq<int>, o: Seq<int>, c: int| aw(a, i, o, c) <==> aw(b, i, o, c)
}

/// The relation maps each input string to at most one output string.
pub open spec fn functional(m: Mach) -> bool {
    forall|i: Seq<int>, o1: Seq<int>, o2: Seq<int>, c1: int, c2: int|
        aw(m, i, o1, c1) && aw(m, i, o2, c2) ==> o1 == o2
}

/// The relational join: `i` maps to `o` within `c` through some middle
/// string, the costs adding up.
pub open spec fn comp_aw(a: Mach, b: Mach, i: Seq<int>, o: Seq<int>, c: int) -> bool {
    exists|mid: Seq<int>, c1: int, c2: int|
        0 <= c1 && 0 <= c2 && c1 + c2 <= c && aw(a, i, mid, c1) && aw(b, mid, o, c2)
}

/// Every index moved up by `off`.
pub open spec fn shift_path(p: Seq<int>, off: int) -> Seq<int> {
    p.map(|i: int, x: int| x + off)
}

/// Walks compose: labels concatenate and costs add.
pub proof fn lemma_path_append(m: Mach, p1: Seq<int>, p2: Seq<int>, s: int)
    requires
        path_ok(m, p1, s),
        path_ok(m, p2, path_end(m, p1, s)),
    ensures
        path_ok(m, p1 + p2, s),
        path_end(m, p1 + p2, s) == path_end(m, p2, path_end(m, p1, s)),
        path_in(m, p1 + p2) == path_in(m, p1) + path_in(m, p2),
        path_out(m, p1 + p2) == path_out(m, p1) + path_out(m, p2),
        path_cost(m, p1 + p2) == path_cost(m, p1) + path_cost(m, p2),
    decreases p1.len(),
{
    if p1.len() == 0 {
        assert(p1 + p2 =~= p2);
        assert(path_in(m, p1) + path_in(m, p2) =~= path_in(m, p2));
        assert(path_out(m, p1) + path_out(m, p2) =~= path_out(m, p2));
    } else {
        assert((p1 + p2)[0] == p1[0]);
        assert((p1 + p2).drop_first() =~= p1.drop_first() + p2);
        lemma_path_append(m, p1.drop_first(), p2, m.trs[p1[0]].to);
        assert(path_in(m, p1 + p2) =~= path_in(m, p1) + path_in(m, p2));
        assert(path_out(m, p1 + p2) =~= path_out(m, p1) + path_out(m, p2));
    }
}

/// A walk of `a` is a walk of any machine whose transition list begins with
/// `a`'s.
pub proof fn lemma_prefix_fwd(a: Mach, m: Mach, p: Seq<int>, s: int)
    requires
        path_ok(a, p, s),
        a.trs.len() <= m.trs.len(),
        forall|k: int| 0 <= k < a.trs.len() ==> m.trs[k] == a.trs[k],
    ensures
        path_ok(m, p, s),
        path_end(m, p, s) == path_end(a, p, s),
        path_in(m, p) == path_in(a, p),
        path_out(m, p) == path_out(a, p),
        path_cost(m, p) == path_cost(a, p),
    decreases p.len(),
{
    if p.len() > 0 {
        lemma_prefix_fwd(a, m, p.drop_first(), a.trs[p[0]].to);
        assert(path_in(m, p) =~= path_in(a, p));
        assert(path_out(m, p) =~= path_out(a, p));
    }
}

/// A walk of `b` becomes a walk of a machine holding a shifted copy of `b`'s
/// transitions as a block at offset `off`, states moved up by `ds`.
pub proof fn lemma_shift_fwd(b: Mach, m: Mach, off: int, ds: int, p: Seq<int>, s: int)
    requires
        path_ok(b, p, s),
        0 <= off,
        off + b.trs.len() <= m.trs.len(),
        forall|k: int|
            0 <= k < b.trs.len() ==> m.trs[off + k] == (#[trigger] b.trs[k]).shifted(ds),
    ensures
        path_ok(m, shift_path(p, off), s + ds),
        path_end(m, shift_path(p, off), s + ds) == path_end(b, p, s) + ds,
        path_in(m, shift_path(p, off)) == path_in(b, p),
        path_out(m, shift_path(p, off)) == path_out(b, p),
        path_cost(m, shift_path(p, off)) == path_cost(b, p),
    decreases p.len(),
{
    if p.len() > 0 {
        assert(shift_path(p, off)[0] == p[0] + off);
        assert(m.trs[p[0] + off] == b.trs[p[0]].shifted(ds));
        assert(shift_path(p, off).drop_first() =~= shift_path(p.drop_first(), off));
        lemma_shift_fwd(b, m, off, ds, p.drop_first(), b.trs[p[0]].to);
        assert(path_in(m, shift_path(p, off)) =~= path_in(b, p));
        assert(path_out(m, shift_path(p, off)) =~= path_out(b, p));
    } else {
        assert(shift_path(p, off) =~= Seq::<int>::empty());
    }
}

/// In a machine whose transitions beyond `a`'s block all leave from states
/// past `a`'s, a walk from one of `a`'s states never leaves `a`.
pub proof fn lemma_prefix_inv(a: Mach, m: Mach, p: Seq<int>, s: int)
    requires
        path_ok(m, p, s),
        a.wf(),
        0 <= s < a.nstates(),
        a.trs.len() <= m.trs.len(),
        forall|k: int| 0 <= k < a.trs.len() ==> m.trs[k] == a.trs[k],
        forall|k: int| a.trs.len() <= k < m.trs.len() ==> (#[trigger] m.trs[k]).from >= a.nstates(),
    ensures
        path_ok(a, p, s),
        path_end(a, p, s) == path_end(m, p, s),
        0 <= path_end(m, p, s) < a.nstates(),
        path_in(m, p) == path_in(a, p),
        path_out(m, p) == path_out(a, p),
        path_cost(m, p) == path_cost(a, p),
    decreases p.len(),
{
    if p.len() > 0 {
        assert(m.trs[p[0]].from == s < a.nstates());
        assert(p[0] < a.trs.len());
        assert(a.tr_ok(a.trs[p[0]]));
        lemma_prefix_inv(a, m, p.drop_first(), a.trs[p[0]].to);
        assert(path_in(m, p) =~= path_in(a, p));
        assert(path_out(m, p) =~= path_out(a, p));
    }
}

/// In a machine where every arc leaving the shifted copy of `b`'s states
/// belongs to `b`'s block, a walk from one of those states is a shifted walk
/// of `b`.
pub proof fn lemma_shift_inv(b: Mach, m: Mach, off: int, ds: int, p: Seq<int>, s: int)
    requires
        path_ok(m, p, s),
        b.wf(),
        0 <= off,
        0 <= ds,
        ds + b.nstates() <= m.nstates(),
        off + b.trs.len() <= m.trs.len(),
        ds <= s < ds + b.nstates(),
        forall|k: int|
            0 <= k < b.trs.len() ==> m.trs[off + k] == (#[trigger] b.trs[k]).shifted(ds),
        forall|k: int|
            0 <= k < m.trs.len() && ds <= (#[trigger] m.trs[k]).from < ds + b.nstates() ==> off
                <= k < off + b.trs.len(),
    ensures
        path_ok(b, shift_path(p, -off), s - ds),
        path_end(b, shift_path(p, -off), s - ds) == path_end(m, p, s) - ds,
        ds <= path_end(m, p, s) < ds + b.nstates(),
        path_in(m, p) == path_in(b, shift_path(p, -off)),
        path_out(m, p) == path_out(b, shift_path(p, -off)),
        path_cost(m, p) == path_cost(b, shift_path(p, -off)),
    decreases p.len(),
{
    if p.len() == 0 {
        assert(shift_path(p, -off) =~= Seq::<int>::empty());
    } else {
        assert(m.trs[p[0]].from == s);
        assert(off <= p[0] < off + b.trs.len());
        let q0 = p[0] - off;
        assert(m.trs[p[0]] == b.trs[q0].shifted(ds));
        assert(b.tr_ok(b.trs[q0]));
        assert(shift_path(p, -off)[0] == q0);
        assert(shift_path(p, -off).drop_first() =~= shift_path(p.drop_first(), -off));
        lemma_shift_inv(b, m, off, ds, p.drop_first(), m.trs[p[0]].to);
        assert(path_in(m, p) =~= path_in(b, shift_path(p, -off)));
        assert(path_out(m, p) =~= path_out(b, shift_path(p, -off)));
    }
}

/// A one-arc walk.
pub proof fn lemma_single_step(m: Mach, k: int, s: int)
    requires
        0 <= k < m.trs.len(),
        m.trs[k].from == s,
    ensures
        path_ok(m, seq![k], s),
        path_end(m, seq![k], s) == m.trs[k].to,
        path_in(m, seq![k]) == if m.trs[k].il != 0 {
            seq![m.trs[k].il]
        } else {
            Seq::<int>::empty()
        },
        path_out(m, seq![k]) == if m.trs[k].ol != 0 {
            seq![m.trs[k].ol]
        } else {
            Seq::<int>::empty()
        },
        path_cost(m, seq![k]) == m.trs[k].cost,
{
    let g = seq![k];
    assert(g.drop_first() =~= Seq::<int>::empty());
    assert(path_ok(m, g.drop_first(), m.trs[k].to));
    assert(path_end(m, g.drop_first(), m.trs[k].to) == m.trs[k].to);
    assert(path_in(m, g.drop_first()) =~= Seq::<int>::empty());
    assert(path_out(m, g.drop_first()) =~= Seq::<int>::empty());
    assert(path_cost(m, g.drop_first()) == 0);
    assert(path_cost(m, g) == m.trs[k].cost);
    if m.trs[k].il != 0 {
        assert(path_in(m, g) =~= seq![m.trs[k].il]);
    } else {
        assert(path_in(m, g) =~= Seq::<int>::empty());
    }
    if m.trs[k].ol != 0 {
        assert(path_out(m, g) =~= seq![m.trs[k].ol]);
    } else {
        assert(path_out(m, g) =~= Seq::<int>::empty());
    }
}

/// The union accepts exactly what either operand accepts, at the same
/// costs.
pub proof fn lemma_union_lang(a: Mach, b: Mach)
    requires
        a.wf(),
        b.wf(),
    ensures
        forall|i: Seq<int>, o: Seq<int>, c: int|
            aw(spec_union(a, b), i, o, c) <==> aw(a, i, o, c) || aw(b, i, o, c),
{
    let m = spec_union(a, b);
    let na = a.nstates();
    let nb = b.nstates();
    let ta = a.trs.len() as int;
    let tb = b.trs.len() as int;
    let ns = na + nb;
    let bshift = b.trs.map(|x: int, t: GTr| t.shifted(na));
    assert(m.trs =~= a.trs + bshift + seq![
        GTr { from: ns, il: 0, ol: 0, cost: 0, to: a.start },
        GTr { from: ns, il: 0, ol: 0, cost: 0, to: b.start + na },
    ]);
    assert forall|k: int| 0 <= k < tb implies m.trs[ta + k] == (#[trigger] b.trs[k]).shifted(na) by {
        assert(bshift[k] == b.trs[k].shifted(na));
    }
    assert forall|k: int| ta <= k < m.trs.len() implies (#[trigger] m.trs[k]).from >= na by {
        if k < ta + tb {
            assert(m.trs[k] == b.trs[k - ta].shifted(na));
            assert(b.tr_ok(b.trs[k - ta]));
        }
    }
    assert forall|k: int|
        0 <= k < m.trs.len() && na <= (#[trigger] m.trs[k]).from < na + nb implies ta <= k < ta
        + tb by {
        if k < ta {
            assert(m.trs[k] == a.trs[k]);
            assert(a.tr_ok(a.trs[k]));
        }
    }
    assert forall|i: Seq<int>, o: Seq<int>, c: int|
        aw(m, i, o, c) <==> aw(a, i, o, c) || aw(b, i, o, c) by {
        if aw(a, i, o, c) {
            let p = choose|p: Seq<int>| accepting(a, p, i, o, c);
            lemma_prefix_fwd(a, m, p, a.start);
            let g = seq![ta + tb];
            assert(m.trs[ta + tb] == (GTr { from: ns, il: 0, ol: 0, cost: 0, to: a.start }));
            lemma_single_step(m, ta + tb, ns);
            assert(path_end(m, g, ns) == a.start);
            lemma_path_append(m, g, p, ns);
            let e = path_end(m, g + p, ns);
            assert(e == path_end(a, p, a.start));
            assert(m.finals[e] == a.finals[e]);
            assert(path_in(m, g + p) =~= i);
            assert(path_out(m, g + p) =~= o);
            assert(accepting(m, g + p, i, o, c));
        }
        if aw(b, i, o, c) {
            let p = choose|p: Seq<int>| accepting(b, p, i, o, c);
            lemma_shift_fwd(b, m, ta, na, p, b.start);
            let g = seq![ta + tb + 1];
            assert(m.trs[ta + tb + 1] == (GTr { from: ns, il: 0, ol: 0, cost: 0, to: b.start + na }));
            lemma_single_step(m, ta + tb + 1, ns);
            assert(path_end(m, g, ns) == b.start + na);
            lemma_path_append(m, g, shift_path(p, ta), ns);
            let e = path_end(m, g + shift_path(p, ta), ns);
            assert(e == path_end(b, p, b.start) + na);
            assert(m.finals[e] == b.finals[e - na]);
            assert(path_in(m, g + shift_path(p, ta)) =~= i);
            assert(path_out(m, g + shift_path(p, ta)) =~= o);
            assert(accepting(m, g + shift_path(p, ta), i, o, c));
        }
        if aw(m, i, o, c) {
            let p = choose|p: Seq<int>| accepting(m, p, i, o, c);
            assert(m.start == ns);
            if p.len() == 0 {
                assert(m.finals[ns] is None);
                assert(false);
            }
            assert(m.trs[p[0]].from == ns);
            assert(p[0] >= ta + tb) by {
                if p[0] < ta {
                    assert(m.trs[p[0]] == a.trs[p[0]]);
                    assert(a.tr_ok(a.trs[p[0]]));
                    assert(false);
                } else if p[0] < ta + tb {
                    assert(m.trs[p[0]] == b.trs[p[0] - ta].shifted(na));
                    assert(b.tr_ok(b.trs[p[0] - ta]));
                    assert(false);
                }
            }
            let rest = p.drop_first();
            if p[0] == ta + tb {
                lemma_prefix_inv(a, m, rest, a.start);
                let e = path_end(m, rest, a.start);
                assert(m.finals[e] == a.finals[e]);
                assert(path_in(a, rest) =~= i);
                assert(path_out(a, rest) =~= o);
                assert(accepting(a, rest, i, o, c));
            } else {
                lemma_shift_inv(b, m, ta, na, rest, b.start + na);
                let q = shift_path(rest, -ta);
                let e = path_end(m, rest, b.start + na);
                assert(m.finals[e] == b.finals[e - na]);
                assert(path_in(b, q) =~= i);
                assert(path_out(b, q) =~= o);
                assert(accepting(b, q, i, o, c));
            }
        }
    }
}

/// Concatenation accepts the pairwise concatenations of what the operands
/// accept, at added costs.
pub proof fn lemma_concat_complete(
    a: Mach,
    b: Mach,
    i1: Seq<int>,
    o1: Seq<int>,
    c1: int,
    i2: Seq<int>,
    o2: Seq<int>,
    c2: int,
)
    requires
        a.wf(),
        b.wf(),
        aw(a, i1, o1, c1),
        aw(b, i2, o2, c2),
    ensures
        aw(spec_concat(a, b), i1 + i2, o1 + o2, c1 + c2),
{
    let m = spec_concat(a, b);
    let na = a.nstates();
    let ta = a.trs.len() as int;
    let glue = glue_arcs(a.finals, na, b.start + na);
    let tg = glue.len() as int;
    let bshift = b.trs.map(|x: int, t: GTr| t.shifted(na));
    assert(m.trs =~= a.trs + glue + bshift);
    assert forall|k: int|
        0 <= k < b.trs.len() implies m.trs[ta + tg + k] == (#[trigger] b.trs[k]).shifted(na) by {
        assert(bshift[k] == b.trs[k].shifted(na));
    }
    let pa = choose|p: Seq<int>| accepting(a, p, i1, o1, c1);
    let pb = choose|p: Seq<int>| accepting(b, p, i2, o2, c2);
    let ea = path_end(a, pa, a.start);
    lemma_glue_arcs_complete(a.finals, na, b.start + na, ea);
    let j = choose|j: int|
        0 <= j < glue.len() && glue[j] == (GTr {
            from: ea,
            il: 0,
            ol: 0,
            cost: a.finals[ea]->0,
            to: b.start + na,
        });
    assert(m.trs[ta + j] == glue[j]);
    lemma_prefix_fwd(a, m, pa, a.start);
    let g = seq![ta + j];
    lemma_single_step(m, ta + j, ea);
    assert(path_ok(m, g, ea));
    assert(path_end(m, g, ea) == b.start + na);
    lemma_path_append(m, pa, g, a.start);
    lemma_shift_fwd(b, m, ta + tg, na, pb, b.start);
    lemma_path_append(m, pa + g, shift_path(pb, ta + tg), a.start);
    let full = (pa + g) + shift_path(pb, ta + tg);
    let e = path_end(m, full, m.start);
    assert(e == path_end(b, pb, b.start) + na);
    assert(m.finals =~= Seq::new(na as nat, |x: int| None::<int>) + b.finals);
    assert(m.finals[e] == b.finals[e - na]);
    assert(path_in(m, full) =~= i1 + i2);
    assert(path_out(m, full) =~= o1 + o2);
    assert(path_cost(m, full) + m.finals[e]->0 <= c1 + c2);
    assert(accepting(m, full, i1 + i2, o1 + o2, c1 + c2));
}

} // verus!
