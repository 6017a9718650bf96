//! The trusted boundary to the generic automaton algebra of the `rustfst`
//! crate: determinization, minimization, composition, epsilon removal and
//! the combined optimization pass. Each operation converts the automaton to
//! `rustfst`'s representation, runs the algorithm there, and converts back.
//! The trusted contracts admit only automata within `Mach::bounded`: a
//! total cost mass of at most 1024 over at most 8192 states. Every weight
//! the algorithms then form — shortest distances, acyclic path sums, their
//! differences, and arc weights pushed by minimization — stays at or below
//! the mass, and for integers up to 1024 the quantization the minimizer
//! applies (step one millionth, not a power of two) still round-trips
//! exactly in `f32`. Callers go through the checked front functions, which
//! test the bound at run time.

use vstd::prelude::*;
use crate::lang::aw;
use crate::lang::comp_aw;
use crate::lang::functional;
use crate::lang::lang_eq;
use crate::machine::Trans;
use crate::machine::Wfst;
use rustfst::Semiring;
use rustfst::Trs;
use rustfst::algorithms::compose::compose;
use rustfst::algorithms::determinize::DeterminizeConfig;
use rustfst::algorithms::determinize::determinize_with_config;
use rustfst::algorithms::minimize_with_config;
use rustfst::algorithms::optimize;
use rustfst::algorithms::rm_epsilon::rm_epsilon;
use rustfst::algorithms::tr_sort;
use rustfst::fst_impls::VectorFst;
use rustfst::fst_traits::CoreFst;
use rustfst::fst_traits::ExpandedFst;
use rustfst::fst_traits::Fst;
use rustfst::fst_traits::MutableFst;
use rustfst::prelude::ILabelCompare;
use rustfst::prelude::MinimizeConfig;
use rustfst::prelude::OLabelCompare;
use rustfst::semirings::TropicalWeight;

verus! {

/// Holds a `rustfst` automaton while an algorithm of the algebra runs on
/// it; opaque to every contract.
#[verifier::external_body]
pub struct RawFst {
    inner: VectorFst<TropicalWeight>,
}

/// Relies on `VectorFst::new`, `add_states`, `set_start`, `set_final` and
/// `emplace_tr`: they rebuild, state for state and arc for arc, exactly the
/// automaton that `w` holds.
#[verifier::external_body]
fn to_raw(w: &Wfst) -> (r: RawFst) {
    let mut f: VectorFst<TropicalWeight> = VectorFst::new();
    f.add_states(w.finals.len());
    let _ = f.set_start(w.start as u32);
    for (s, fin) in w.finals.iter().enumerate() {
        fin.map(|c| f.set_final(s as u32, TropicalWeight::new(c as _)));
    }
    for t in w.trs.iter() {
        let _ = f.emplace_tr(t.from as u32, t.il, t.ol, TropicalWeight::new(t.cost as _), t.to as u32);
    }
    RawFst { inner: f }
}

/// Relies on `final_weight`: the acceptance cost of each state, in state
/// order.
#[verifier::external_body]
fn raw_finals(f: &RawFst) -> (r: Vec<Option<u32>>) {
    (0..f.inner.num_states()).map(
        |s| f.inner.final_weight(s as u32).ok().flatten().map(|w| *w.value() as u32),
    ).collect()
}

/// Relies on `get_trs`: the arcs leaving state `s`, converted one for one.
#[verifier::external_body]
fn raw_arcs(f: &RawFst, s: usize) -> (r: Vec<Trans>) {
    f.inner.get_trs(s as u32).map(|ts| ts.trs().to_vec()).unwrap_or_default().iter().map(
        |t| Trans { from: s, il: t.ilabel, ol: t.olabel, cost: *t.weight.value() as u32, to: t.nextstate as usize },
    ).collect()
}

/// Relies on `num_states` and `start`, with the two readers above: they
/// read back, state for state and arc for arc, exactly the automaton `raw`
/// holds. An automaton without a start state, which accepts nothing, comes
/// back as the one-state machine that accepts nothing.
#[verifier::external_body]
fn of_raw(raw: &RawFst) -> (r: Wfst) {
    let n = raw.inner.num_states();
    let start = match raw.inner.start() {
        Some(s) if (s as usize) < n => s as usize,
        _ => return Wfst { start: 0, finals: vec![None], trs: Vec::new() },
    };
    let trs = (0..n).flat_map(|s| raw_arcs(raw, s)).collect();
    Wfst { start, finals: raw_finals(raw), trs }
}

/// Relies on rustfst's `optimize`: encoding, determinizing, minimizing and
/// decoding yield an equivalent automaton — the weighted language is kept.
/// Its branch for deterministic or acyclic acceptors minimizes with
/// weights, pushing and quantizing them as `rf_minimize` does: within the
/// admitted cost mass that quantization is exact.
#[verifier::external_body]
pub(crate) fn rf_optimize(w: &Wfst) -> (r: Option<Wfst>)
    requires
        w.wf(),
        w.m().bounded(),
    ensures
        r matches Some(x) ==> x.wf() && lang_eq(x.m(), w.m()),
{
    let mut f = to_raw(w);
    match optimize(&mut f.inner) {
        Ok(()) => Some(of_raw(&f)),
        Err(_) => None,
    }
}

/// Relies on rustfst's `rm_epsilon`: the result is an equivalent automaton
/// without epsilon-to-epsilon transitions.
#[verifier::external_body]
pub(crate) fn rf_rm_epsilon(w: &Wfst) -> (r: Option<Wfst>)
    requires
        w.wf(),
        w.m().bounded(),
    ensures
        r matches Some(x) ==> x.wf() && lang_eq(x.m(), w.m()) && forall|k: int|
            0 <= k < x.m().trs.len() ==> (#[trigger] x.m().trs[k]).il != 0 || x.m().trs[k].ol != 0,
{
    let mut f = to_raw(w);
    match rm_epsilon(&mut f.inner) {
        Ok(()) => Some(of_raw(&f)),
        Err(_) => None,
    }
}

/// Relies on rustfst's `determinize_with_config` in its functional mode:
/// when the input relation maps each input to at most one output, the result
/// is an equivalent automaton.
#[verifier::external_body]
pub(crate) fn rf_determinize_functional(w: &Wfst) -> (r: Option<Wfst>)
    requires
        w.wf(),
        w.m().bounded(),
    ensures
        r matches Some(x) ==> x.wf() && (functional(w.m()) ==> lang_eq(x.m(), w.m())),
{
    let f = to_raw(w);
    let g: Result<VectorFst<TropicalWeight>, _> = determinize_with_config(&f.inner, DeterminizeConfig::default());
    match g {
        Ok(g) => Some(of_raw(&RawFst { inner: g })),
        Err(_) => None,
    }
}

/// Relies on rustfst's `minimize_with_config`: over the tropical semiring,
/// which is idempotent, minimization of deterministic automata — and, when
/// allowed, of nondeterministic ones — keeps the weighted language; when
/// the input is refused, the call errors and `None` comes back. It pushes
/// weights toward the start and quantizes them with a step of one
/// millionth: within the admitted cost mass every pushed weight is an
/// integer of at most 1024, where that quantization is exact.
#[verifier::external_body]
pub(crate) fn rf_minimize(w: &Wfst, allow_nondet: bool) -> (r: Option<Wfst>)
    requires
        w.wf(),
        w.m().bounded(),
    ensures
        r matches Some(x) ==> x.wf() && lang_eq(x.m(), w.m()),
{
    let mut f = to_raw(w);
    let cfg = MinimizeConfig::default().with_allow_nondet(allow_nondet);
    match minimize_with_config(&mut f.inner, cfg) {
        Ok(()) => Some(of_raw(&f)),
        Err(_) => None,
    }
}

/// Relies on rustfst's `compose`, after sorting the left operand's arcs by
/// output label and the right's by input label (`tr_sort`): the result
/// accepts `(i, o)` at the added costs of some middle string accepted by
/// both operands, which is exactly the relational join.
#[verifier::external_body]
pub(crate) fn rf_compose(a: &Wfst, b: &Wfst) -> (r: Option<Wfst>)
    requires
        a.wf(),
        a.m().bounded(),
        b.wf(),
        b.m().bounded(),
    ensures
        r matches Some(x) ==> x.wf() && forall|i: Seq<int>, o: Seq<int>, c: int|
            aw(x.m(), i, o, c) <==> comp_aw(a.m(), b.m(), i, o, c),
{
    let mut fa = to_raw(a);
    let mut fb = to_raw(b);
    tr_sort(&mut fa.inner, OLabelCompare {});
    tr_sort(&mut fb.inner, ILabelCompare {});
    let fc: Result<VectorFst<TropicalWeight>, _> = compose(fa.inner, fb.inner);
    match fc {
        Ok(g) => Some(of_raw(&RawFst { inner: g })),
        Err(_) => None,
    }
}

/// The generic simplification pass: determinization and minimization under
/// an encoding, keeping the weighted language. `None` when the algebra
/// fails or the automaton exceeds the boundary's bound.
pub fn optimize_fst(w: &Wfst) -> (r: Option<Wfst>)
    requires
        w.wf(),
    ensures
        r matches Some(x) ==> x.wf() && lang_eq(x.m(), w.m()),
{
    if w.check_bounded() {
        rf_optimize(w)
    } else {
        None
    }
}

/// Epsilon removal: an equivalent automaton without epsilon-to-epsilon
/// transitions.
pub fn remove_epsilons(w: &Wfst) -> (r: Option<Wfst>)
    requires
        w.wf(),
    ensures
        r matches Some(x) ==> x.wf() && lang_eq(x.m(), w.m()) && forall|k: int|
            0 <= k < x.m().trs.len() ==> (#[trigger] x.m().trs[k]).il != 0 || x.m().trs[k].ol != 0,
{
    if w.check_bounded() {
        rf_rm_epsilon(w)
    } else {
        None
    }
}

/// Functional determinization: equivalent whenever the input relation maps
/// each input to at most one output.
pub fn determinize_functional(w: &Wfst) -> (r: Option<Wfst>)
    requires
        w.wf(),
    ensures
        r matches Some(x) ==> x.wf() && (functional(w.m()) ==> lang_eq(x.m(), w.m())),
{
    if w.check_bounded() {
        rf_determinize_functional(w)
    } else {
        None
    }
}

/// Minimization, optionally of nondeterministic automata, keeping the
/// weighted language.
pub fn minimize_fst(w: &Wfst, allow_nondet: bool) -> (r: Option<Wfst>)
    requires
        w.wf(),
    ensures
        r matches Some(x) ==> x.wf() && lang_eq(x.m(), w.m()),
{
    if w.check_bounded() {
        rf_minimize(w, allow_nondet)
    } else {
        None
    }
}

/// Relational composition along matching output and input labels.
pub fn compose_fst(a: &Wfst, b: &Wfst) -> (r: Option<Wfst>)
    requires
        a.wf(),
        b.wf(),
    ensures
        r matches Some(x) ==> x.wf() && forall|i: Seq<int>, o: Seq<int>, c: int|
            aw(x.m(), i, o, c) <==> comp_aw(a.m(), b.m(), i, o, c),
{
    if a.check_bounded() && b.check_bounded() {
        rf_compose(a, b)
    } else {
        None
    }
}

} // verus!
