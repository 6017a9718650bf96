//! The weighted automaton representation and its structural algebra:
//! concatenation, union, closure, label erasure and the sigma-star fragments.

use vstd::prelude::*;

verus! {

/// One weighted transition: consume `il`, emit `ol`, at integer tropical cost
/// `cost`. Label 0 is epsilon (nothing consumed / emitted).
#[derive(Clone, Copy, Debug, PartialEq, Eq)]
pub struct Trans {
    pub from: usize,
    pub il: u32,
    pub ol: u32,
    pub cost: u32,
    pub to: usize,
}

/// A weighted finite-state transducer with one start state. State `s` is
/// accepting iff `finals[s]` is `Some(cost)`. The number of states is
/// `finals.len()`.
#[derive(Clone, Debug, PartialEq)]
pub struct Wfst {
    pub start: usize,
    pub finals: Vec<Option<u32>>,
    pub trs: Vec<Trans>,
}

/// Mathematical counterpart of `Trans`.
#[verifier::ext_equal]
pub ghost struct GTr {
    pub from: int,
    pub il: int,
    pub ol: int,
    pub cost: int,
    pub to: int,
}

/// Mathematical counterpart of `Wfst`; the model that every contract in the
/// crate speaks of.
#[verifier::ext_equal]
pub ghost struct Mach {
    pub start: int,
    pub finals: Seq<Option<int>>,
    pub trs: Seq<GTr>,
}

impl GTr {
    /// The same transition with both endpoints moved up by `ds`.
    pub open spec fn shifted(self, ds: int) -> GTr {
        GTr { from: self.from + ds, il: self.il, ol: self.ol, cost: self.cost, to: self.to + ds }
    }
}

impl Mach {
    pub open spec fn nstates(self) -> int {
        self.finals.len() as int
    }

    pub open spec fn tr_ok(self, t: GTr) -> bool {
        &&& 0 <= t.from < self.nstates()
        &&& 0 <= t.to < self.nstates()
        &&& 0 <= t.il
        &&& 0 <= t.ol
        &&& 0 <= t.cost
    }

    pub open spec fn wf(self) -> bool {
        &&& 0 <= self.start < self.nstates()
        &&& forall|k: int| 0 <= k < self.trs.len() ==> self.tr_ok(#[trigger] self.trs[k])
        &&& forall|s: int|
            0 <= s < self.finals.len() && #[trigger] self.finals[s] is Some ==> self.finals[s]->0
                >= 0
    }
}

/// The summed costs of the first `k` transitions.
pub open spec fn trs_mass(trs: Seq<GTr>, k: int) -> int
    decreases k,
{
    if k <= 0 {
        0
    } else {
        trs_mass(trs, k - 1) + trs[k - 1].cost
    }
}

/// The summed acceptance costs of the first `k` states.
pub open spec fn fin_mass(fin: Seq<Option<int>>, k: int) -> int
    decreases k,
{
    if k <= 0 {
        0
    } else {
        fin_mass(fin, k - 1) + (match fin[k - 1] {
            Some(c) => c,
            None => 0,
        })
    }
}

impl Mach {
    /// The total cost mass: every arc cost and every acceptance cost, added.
    /// Every weight the tropical algorithms form — acyclic path sums,
    /// shortest distances, their differences, and arc weights pushed by
    /// those distances — is bounded by it.
    pub open spec fn mass(self) -> int {
        trs_mass(self.trs, self.trs.len() as int) + fin_mass(
            self.finals,
            self.finals.len() as int,
        )
    }

    /// Small enough for the algebra boundary: with the total cost mass at
    /// most 1024 and at most 8192 states, every weight the algorithms form
    /// stays at or below 1024, where the boundary's quantization step of
    /// one millionth round-trips integers exactly in `f32`.
    pub open spec fn bounded(self) -> bool {
        &&& self.nstates() <= 0x2000
        &&& self.mass() <= 0x400
    }
}

impl Trans {
    pub open spec fn m(self) -> GTr {
        GTr {
            from: self.from as int,
            il: self.il as int,
            ol: self.ol as int,
            cost: self.cost as int,
            to: self.to as int,
        }
    }
}

impl Wfst {
    pub open spec fn m(self) -> Mach {
        Mach {
            start: self.start as int,
            finals: self.finals@.map(
                |i: int, f: Option<u32>|
                    match f {
                        Some(c) => Some(c as int),
                        None => None,
                    },
            ),
            trs: self.trs@.map(|i: int, t: Trans| t.m()),
        }
    }

    pub open spec fn wf(self) -> bool {
        self.m().wf()
    }
}

/// The identity seed fragment: one state, both start and accepting at cost
/// zero, no transitions.
pub open spec fn spec_seed() -> Mach {
    Mach { start: 0, finals: seq![Some(0int)], trs: Seq::empty() }
}

/// One arc per accepting state of `fin` below `upto`, in ascending state
/// order: an epsilon arc of that state's acceptance cost, pointing at `dst`.
/// This is the gluing pattern shared by concatenation, closure and the
/// super-final construction.
pub open spec fn glue_arcs(fin: Seq<Option<int>>, upto: int, dst: int) -> Seq<GTr>
    decreases upto,
{
    if upto <= 0 {
        Seq::empty()
    } else {
        glue_arcs(fin, upto - 1, dst) + if fin[upto - 1] is Some {
            seq![GTr { from: upto - 1, il: 0, ol: 0, cost: fin[upto - 1]->0, to: dst }]
        } else {
            Seq::empty()
        }
    }
}

/// Concatenation: `b`'s states are appended after `a`'s; every accepting
/// state of `a` loses its acceptance and instead glues, at that cost, onto
/// `b`'s start.
pub open spec fn spec_concat(a: Mach, b: Mach) -> Mach {
    let na = a.nstates();
    Mach {
        start: a.start,
        finals: Seq::new(na as nat, |i: int| None) + b.finals,
        trs: a.trs + glue_arcs(a.finals, na, b.start + na) + b.trs.map(
            |i: int, t: GTr| t.shifted(na),
        ),
    }
}

/// Union: `b`'s states are appended after `a`'s and a fresh start state
/// chooses either operand through an epsilon arc of cost zero.
pub open spec fn spec_union(a: Mach, b: Mach) -> Mach {
    let na = a.nstates();
    let ns = na + b.nstates();
    Mach {
        start: ns,
        finals: a.finals + b.finals + seq![None],
        trs: a.trs + b.trs.map(|i: int, t: GTr| t.shifted(na)) + seq![
            GTr { from: ns, il: 0, ol: 0, cost: 0, to: a.start },
            GTr { from: ns, il: 0, ol: 0, cost: 0, to: b.start + na },
        ],
    }
}

/// Star closure: every accepting state loops back to the old start at its
/// acceptance cost, and a fresh start state, accepting at cost zero, reaches
/// the old start by an epsilon arc, so zero repetitions are allowed.
pub open spec fn spec_closure_star(a: Mach) -> Mach {
    let na = a.nstates();
    Mach {
        start: na,
        finals: a.finals + seq![Some(0int)],
        trs: a.trs + glue_arcs(a.finals, na, a.start) + seq![
            GTr { from: na, il: 0, ol: 0, cost: 0, to: a.start },
        ],
    }
}

/// Plus closure: as the star closure, but with no fresh start state, so at
/// least one pass through the body is required.
pub open spec fn spec_closure_plus(a: Mach) -> Mach {
    Mach {
        start: a.start,
        finals: a.finals,
        trs: a.trs + glue_arcs(a.finals, a.nstates(), a.start),
    }
}

/// Super-final wrapping: a fresh state becomes the only accepting state;
/// every old accepting state glues onto it at its old cost, and an epsilon
/// bypass from the start makes the whole fragment optional.
pub open spec fn spec_optional(a: Mach) -> Mach {
    let na = a.nstates();
    Mach {
        start: a.start,
        finals: Seq::new(na as nat, |i: int| None) + seq![Some(0int)],
        trs: a.trs + glue_arcs(a.finals, na, na) + seq![
            GTr { from: a.start, il: 0, ol: 0, cost: 0, to: na },
        ],
    }
}

/// All input labels erased to epsilon.
pub open spec fn spec_input_eps(a: Mach) -> Mach {
    Mach {
        start: a.start,
        finals: a.finals,
        trs: a.trs.map(|i: int, t: GTr| GTr { from: t.from, il: 0, ol: t.ol, cost: t.cost, to: t.to }),
    }
}

/// All output labels erased to epsilon.
pub open spec fn spec_output_eps(a: Mach) -> Mach {
    Mach {
        start: a.start,
        finals: a.finals,
        trs: a.trs.map(|i: int, t: GTr| GTr { from: t.from, il: t.il, ol: 0, cost: t.cost, to: t.to }),
    }
}

/// The unrestricted relation over an alphabet of `nsyms` labels (label 0
/// being epsilon): one state, accepting at cost zero, with an identity
/// self-loop of the given cost for every non-epsilon label.
pub open spec fn spec_sigma(nsyms: int, cost: int) -> Mach {
    Mach {
        start: 0,
        finals: seq![Some(0int)],
        trs: Seq::new(
            if nsyms >= 1 {
                (nsyms - 1) as nat
            } else {
                0
            },
            |k: int| GTr { from: 0, il: k + 1, ol: k + 1, cost: cost, to: 0 },
        ),
    }
}

impl Wfst {
    /// The identity seed fragment.
    pub fn seed() -> (r: Wfst)
        ensures
            r.m() == spec_seed(),
            r.wf(),
    {
        let r = Wfst { start: 0, finals: vec![Some(0u32)], trs: Vec::new() };
        proof {
            assert(r.m() =~= spec_seed());
        }
        r
    }

    pub fn num_states(&self) -> (n: usize)
        ensures
            n as int == self.m().nstates(),
    {
        self.finals.len()
    }

    /// The unrestricted relation: every non-epsilon label of an alphabet of
    /// `nsyms` labels maps to itself, any number of times, at `cost` each.
    pub fn sigma(nsyms: usize, cost: u32) -> (r: Wfst)
        requires
            1 <= nsyms <= u32::MAX,
        ensures
            r.m() == spec_sigma(nsyms as int, cost as int),
            r.wf(),
    {
        let mut trs: Vec<Trans> = Vec::new();
        let mut l: usize = 1;
        while l < nsyms
            invariant
                1 <= l <= nsyms <= u32::MAX,
                trs@.len() == l - 1,
                forall|k: int|
                    0 <= k < l - 1 ==> (#[trigger] trs@[k]).m() == (GTr {
                        from: 0,
                        il: k + 1,
                        ol: k + 1,
                        cost: cost as int,
                        to: 0,
                    }),
            decreases nsyms - l,
        {
            trs.push(Trans { from: 0, il: l as u32, ol: l as u32, cost: cost, to: 0 });
            l = l + 1;
        }
        let r = Wfst { start: 0, finals: vec![Some(0u32)], trs };
        proof {
            assert(r.m() =~= spec_sigma(nsyms as int, cost as int));
        }
        r
    }

    /// Adds one epsilon arc of cost `fin[s]` from every accepting state `s`
    /// to `dst`, in ascending state order; with `clear`, the accepting states
    /// stop accepting.
    fn glue_finals(&mut self, dst: usize, clear: bool)
        requires
            old(self).trs.len() + old(self).finals.len() <= usize::MAX,
        ensures
            final(self).start == old(self).start,
            final(self).finals@.len() == old(self).finals@.len(),
            clear ==> forall|k: int|
                0 <= k < final(self).finals@.len() ==> final(self).finals@[k] is None,
            !clear ==> final(self).finals@ == old(self).finals@,
            final(self).m().trs =~= old(self).m().trs + glue_arcs(
                old(self).m().finals,
                old(self).m().nstates(),
                dst as int,
            ),
            final(self).trs@.len() <= old(self).trs.len() + old(self).finals.len(),
    {
        let ghost af: Seq<Option<u32>> = self.finals@;
        let ghost a: Mach = self.m();
        let na: usize = self.finals.len();
        let mut s: usize = 0;
        while s < na
            invariant
                0 <= s <= na,
                na == af.len(),
                a.finals.len() == na,
                a.finals == af.map(
                    |i: int, f: Option<u32>|
                        match f {
                            Some(c) => Some(c as int),
                            None => None::<int>,
                        },
                ),
                self.start as int == a.start,
                self.finals@.len() == na,
                self.trs@.len() + (na - s) <= usize::MAX,
                self.trs@.len() <= old(self).trs@.len() + s,
                clear ==> forall|k: int| 0 <= k < s ==> self.finals@[k] is None,
                !clear ==> self.finals@ == af,
                forall|k: int| s <= k < na ==> self.finals@[k] == af[k],
                self.m().trs =~= a.trs + glue_arcs(a.finals, s as int, dst as int),
            decreases na - s,
        {
            let ghost pre: Seq<GTr> = self.m().trs;
            let fs: Option<u32> = self.finals[s];
            proof {
                assert(a.finals[s as int] == (match af[s as int] {
                    Some(c) => Some(c as int),
                    None => None::<int>,
                }));
            }
            if let Some(c) = fs {
                self.trs.push(Trans { from: s, il: 0, ol: 0, cost: c, to: dst });
                proof {
                    assert(self.m().trs =~= pre + seq![
                        GTr { from: s as int, il: 0, ol: 0, cost: c as int, to: dst as int },
                    ]);
                }
                if clear {
                    self.finals.set(s, None);
                }
            }
            proof {
                assert((a.trs + glue_arcs(a.finals, s as int, dst as int)) + glue_arcs(
                    a.finals,
                    s + 1,
                    dst as int,
                ).subrange(
                    glue_arcs(a.finals, s as int, dst as int).len() as int,
                    glue_arcs(a.finals, s + 1, dst as int).len() as int,
                ) =~= a.trs + glue_arcs(a.finals, s + 1, dst as int));
                assert(self.m().trs =~= a.trs + glue_arcs(a.finals, s + 1, dst as int));
            }
            s = s + 1;
        }
    }

    /// Appends `other`'s states and transitions after `self`'s, both state
    /// indices moved up by `self`'s state count; start and acceptance of
    /// `self` are untouched.
    fn append_shifted(&mut self, other: &Wfst)
        requires
            other.wf(),
            old(self).finals.len() + other.finals.len() <= usize::MAX,
            old(self).trs.len() + other.trs.len() <= usize::MAX,
        ensures
            final(self).start == old(self).start,
            final(self).finals@ == old(self).finals@ + other.finals@,
            final(self).m().trs =~= old(self).m().trs + other.m().trs.map(
                |x: int, t: GTr| t.shifted(old(self).finals@.len() as int),
            ),
    {
        let ghost b: Mach = other.m();
        let na: usize = self.finals.len();
        let ghost f0: Seq<Option<u32>> = self.finals@;
        let nb: usize = other.finals.len();
        let mut i: usize = 0;
        while i < nb
            invariant
                0 <= i <= nb,
                other.finals@.len() == nb,
                na + nb <= usize::MAX,
                self.start == old(self).start,
                self.trs@ == old(self).trs@,
                self.finals@ =~= f0 + other.finals@.subrange(0, i as int),
            decreases nb - i,
        {
            self.finals.push(other.finals[i]);
            proof {
                assert(self.finals@ =~= f0 + other.finals@.subrange(0, i + 1));
            }
            i = i + 1;
        }
        let ghost t0: Seq<GTr> = self.m().trs;
        let nt: usize = other.trs.len();
        let mut j: usize = 0;
        while j < nt
            invariant
                0 <= j <= nt,
                b == other.m(),
                b.wf(),
                other.trs@.len() == nt,
                nt == b.trs.len(),
                nb == b.finals.len(),
                na + nb <= usize::MAX,
                t0.len() + nt <= usize::MAX,
                self.start == old(self).start,
                self.finals@ == f0 + other.finals@.subrange(0, nb as int),
                self.trs@.len() == t0.len() + j,
                self.m().trs =~= t0 + b.trs.subrange(0, j as int).map(
                    |x: int, t: GTr| t.shifted(na as int),
                ),
            decreases nt - j,
        {
            let ghost pre: Seq<GTr> = self.m().trs;
            let t: Trans = other.trs[j];
            proof {
                assert(b.tr_ok(b.trs[j as int]));
                assert(b.trs[j as int] == t.m());
            }
            self.trs.push(
                Trans { from: t.from + na, il: t.il, ol: t.ol, cost: t.cost, to: t.to + na },
            );
            proof {
                assert(self.m().trs =~= pre + seq![t.m().shifted(na as int)]);
                assert(self.m().trs =~= t0 + b.trs.subrange(0, j + 1).map(
                    |x: int, t: GTr| t.shifted(na as int),
                ));
            }
            j = j + 1;
        }
        proof {
            assert(other.finals@.subrange(0, nb as int) =~= other.finals@);
            assert(b.trs.subrange(0, nt as int) =~= b.trs);
        }
    }

    /// Appends `other` after `self`: every accepting state of `self` glues
    /// onto `other`'s start at its acceptance cost and stops accepting.
    pub fn concat_with(&mut self, other: &Wfst)
        requires
            old(self).wf(),
            other.wf(),
            old(self).finals.len() + other.finals.len() <= usize::MAX,
            old(self).trs.len() + old(self).finals.len() + other.trs.len() <= usize::MAX,
        ensures
            final(self).m() == spec_concat(old(self).m(), other.m()),
            final(self).wf(),
    {
        let ghost a: Mach = self.m();
        let ghost b: Mach = other.m();
        let na: usize = self.finals.len();
        let bstart: usize = na + other.start;
        self.glue_finals(bstart, true);
        self.append_shifted(other);
        proof {
            assert(self.m().finals =~= Seq::new(na as nat, |i: int| None::<int>) + b.finals);
            assert(self.m() =~= spec_concat(a, b));
            lemma_glue_arcs_ok(a.finals, na as int, bstart as int);
            lemma_shifted_ok(a, b, na as int);
            assert(spec_concat(a, b).wf());
        }
    }

    /// Nondeterministic choice between `self` and `other`, through a fresh
    /// start state with an epsilon arc of cost zero to each operand's start.
    pub fn union_with(&mut self, other: &Wfst)
        requires
            old(self).wf(),
            other.wf(),
            old(self).finals.len() + other.finals.len() + 1 <= usize::MAX,
            old(self).trs.len() + other.trs.len() + 2 <= usize::MAX,
        ensures
            final(self).m() == spec_union(old(self).m(), other.m()),
            final(self).wf(),
    {
        let ghost a: Mach = self.m();
        let ghost b: Mach = other.m();
        let na: usize = self.finals.len();
        let astart: usize = self.start;
        let bstart: usize = na + other.start;
        self.append_shifted(other);
        let ns: usize = self.finals.len();
        self.finals.push(None);
        self.trs.push(Trans { from: ns, il: 0, ol: 0, cost: 0, to: astart });
        self.trs.push(Trans { from: ns, il: 0, ol: 0, cost: 0, to: bstart });
        self.start = ns;
        proof {
            assert(self.m().finals =~= a.finals + b.finals + seq![None::<int>]);
            assert(self.m() =~= spec_union(a, b));
            lemma_shifted_ok(a, b, na as int);
            assert(spec_union(a, b).wf());
        }
    }

    /// Star closure: zero or more repetitions.
    pub fn close_star(&mut self)
        requires
            old(self).wf(),
            old(self).finals.len() + 1 <= usize::MAX,
            old(self).trs.len() + old(self).finals.len() + 1 <= usize::MAX,
        ensures
            final(self).m() == spec_closure_star(old(self).m()),
            final(self).wf(),
    {
        let ghost a: Mach = self.m();
        let na: usize = self.finals.len();
        let astart: usize = self.start;
        self.glue_finals(astart, false);
        self.finals.push(Some(0u32));
        self.trs.push(Trans { from: na, il: 0, ol: 0, cost: 0, to: astart });
        self.start = na;
        proof {
            assert(self.m().finals =~= a.finals + seq![Some(0int)]);
            assert(self.m() =~= spec_closure_star(a));
            lemma_glue_arcs_ok(a.finals, na as int, a.start);
            assert(spec_closure_star(a).wf());
        }
    }

    /// Plus closure: one or more repetitions.
    pub fn close_plus(&mut self)
        requires
            old(self).wf(),
            old(self).trs.len() + old(self).finals.len() <= usize::MAX,
        ensures
            final(self).m() == spec_closure_plus(old(self).m()),
            final(self).wf(),
    {
        let ghost a: Mach = self.m();
        let na: usize = self.finals.len();
        self.glue_finals(self.start, false);
        proof {
            assert(self.m().finals =~= a.finals);
            assert(self.m() =~= spec_closure_plus(a));
            lemma_glue_arcs_ok(a.finals, na as int, a.start);
            assert(spec_closure_plus(a).wf());
        }
    }

    /// Optional wrapping: a fresh super-final state receives every old
    /// acceptance, and an epsilon bypass from the start makes the fragment
    /// accept zero occurrences as well.
    pub fn make_optional(&mut self)
        requires
            old(self).wf(),
            old(self).finals.len() + 1 <= usize::MAX,
            old(self).trs.len() + old(self).finals.len() + 1 <= usize::MAX,
        ensures
            final(self).m() == spec_optional(old(self).m()),
            final(self).wf(),
    {
        let ghost a: Mach = self.m();
        let na: usize = self.finals.len();
        let astart: usize = self.start;
        self.glue_finals(na, true);
        self.finals.push(Some(0u32));
        self.trs.push(Trans { from: astart, il: 0, ol: 0, cost: 0, to: na });
        proof {
            assert(self.m().finals =~= Seq::new(na as nat, |i: int| None::<int>) + seq![
                Some(0int),
            ]);
            assert(self.m() =~= spec_optional(a));
            lemma_glue_arcs_ok(a.finals, na as int, na as int);
            assert(spec_optional(a).wf());
        }
    }

    /// Erases every input label to epsilon.
    pub fn erase_input(&mut self)
        ensures
            final(self).m() == spec_input_eps(old(self).m()),
            old(self).wf() ==> final(self).wf(),
    {
        let ghost a: Mach = self.m();
        let nt: usize = self.trs.len();
        let mut j: usize = 0;
        while j < nt
            invariant
                0 <= j <= nt,
                self.trs@.len() == nt,
                self.start == old(self).start,
                self.finals@ == old(self).finals@,
                forall|k: int|
                    0 <= k < j ==> #[trigger] self.trs@[k] == (Trans {
                        il: 0u32,
                        ..old(self).trs@[k]
                    }),
                forall|k: int| j <= k < nt ==> self.trs@[k] == old(self).trs@[k],
            decreases nt - j,
        {
            let mut t: Trans = self.trs[j];
            t.il = 0;
            self.trs.set(j, t);
            j = j + 1;
        }
        proof {
            assert(self.m() =~= spec_input_eps(a));
        }
    }

    /// Erases every output label to epsilon.
    pub fn erase_output(&mut self)
        ensures
            final(self).m() == spec_output_eps(old(self).m()),
            old(self).wf() ==> final(self).wf(),
    {
        let ghost a: Mach = self.m();
        let nt: usize = self.trs.len();
        let mut j: usize = 0;
        while j < nt
            invariant
                0 <= j <= nt,
                self.trs@.len() == nt,
                self.start == old(self).start,
                self.finals@ == old(self).finals@,
                forall|k: int|
                    0 <= k < j ==> #[trigger] self.trs@[k] == (Trans {
                        ol: 0u32,
                        ..old(self).trs@[k]
                    }),
                forall|k: int| j <= k < nt ==> self.trs@[k] == old(self).trs@[k],
            decreases nt - j,
        {
            let mut t: Trans = self.trs[j];
            t.ol = 0;
            self.trs.set(j, t);
            j = j + 1;
        }
        proof {
            assert(self.m() =~= spec_output_eps(a));
        }
    }
}

/// The one-state machine that accepts nothing.
pub open spec fn spec_dead() -> Mach {
    Mach { start: 0, finals: seq![None], trs: Seq::empty() }
}

/// The two-state epsilon filler of the given cost, used to pad automata so
/// that rule counts stay weight-commensurable.
pub open spec fn spec_filler(cost: int) -> Mach {
    Mach {
        start: 0,
        finals: seq![None, Some(0int)],
        trs: seq![GTr { from: 0, il: 0, ol: 0, cost: cost, to: 1 }],
    }
}

impl Wfst {
    /// The one-state machine that accepts nothing.
    pub fn dead() -> (r: Wfst)
        ensures
            r.m() == spec_dead(),
            r.wf(),
    {
        let r = Wfst { start: 0, finals: vec![None], trs: Vec::new() };
        proof {
            assert(r.m() =~= spec_dead());
        }
        r
    }

    /// The two-state epsilon filler of the given cost.
    pub fn filler(cost: u32) -> (r: Wfst)
        ensures
            r.m() == spec_filler(cost as int),
            r.wf(),
    {
        let r = Wfst {
            start: 0,
            finals: vec![None, Some(0u32)],
            trs: vec![Trans { from: 0, il: 0, ol: 0, cost: cost, to: 1 }],
        };
        proof {
            assert(r.m() =~= spec_filler(cost as int));
        }
        r
    }

    /// Makes state `s` accepting at cost `c`.
    pub fn set_final_cost(&mut self, s: usize, c: u32)
        requires
            s < old(self).finals.len(),
        ensures
            final(self).m() == (Mach {
                finals: old(self).m().finals.update(s as int, Some(c as int)),
                ..old(self).m()
            }),
            old(self).wf() ==> final(self).wf(),
    {
        self.finals.set(s, Some(c));
        proof {
            assert(self.m() =~= Mach {
                finals: old(self).m().finals.update(s as int, Some(c as int)),
                ..old(self).m()
            });
        }
    }
}

/// With nonnegative costs the transition mass only grows with its range.
pub proof fn lemma_trs_mass_mono(trs: Seq<GTr>, k: int, n: int)
    requires
        0 <= k <= n <= trs.len(),
        forall|x: int| 0 <= x < trs.len() ==> (#[trigger] trs[x]).cost >= 0,
    ensures
        trs_mass(trs, k) <= trs_mass(trs, n),
    decreases n,
{
    if k < n {
        lemma_trs_mass_mono(trs, k, n - 1);
    }
}

/// With nonnegative acceptance costs the final mass only grows with its
/// range.
pub proof fn lemma_fin_mass_mono(fin: Seq<Option<int>>, k: int, n: int)
    requires
        0 <= k <= n <= fin.len(),
        forall|x: int| 0 <= x < fin.len() && #[trigger] fin[x] is Some ==> fin[x]->0 >= 0,
    ensures
        fin_mass(fin, k) <= fin_mass(fin, n),
    decreases n,
{
    if k < n {
        lemma_fin_mass_mono(fin, k, n - 1);
    }
}

impl Wfst {
    /// Whether the automaton is small enough for the algebra boundary.
    pub fn check_bounded(&self) -> (r: bool)
        requires
            self.wf(),
        ensures
            r == self.m().bounded(),
    {
        let ghost mm: Mach = self.m();
        if self.finals.len() > 0x2000 {
            return false;
        }
        let mut acc: u64 = 0;
        let nf: usize = self.finals.len();
        let mut s: usize = 0;
        while s < nf
            invariant
                0 <= s <= nf,
                nf == self.finals@.len(),
                self.wf(),
                mm == self.m(),
                acc as int == fin_mass(mm.finals, s as int),
                acc <= 0x400,
            decreases nf - s,
        {
            proof {
                assert(mm.finals[s as int] == (match self.finals@[s as int] {
                    Some(c) => Some(c as int),
                    None => None::<int>,
                }));
            }
            if let Some(c) = self.finals[s] {
                let nacc: u64 = acc + c as u64;
                proof {
                    assert(fin_mass(mm.finals, s + 1) == acc + c as int);
                }
                if nacc > 0x400 {
                    proof {
                        lemma_fin_mass_mono(mm.finals, s + 1, nf as int);
                        lemma_trs_mass_mono(mm.trs, 0, mm.trs.len() as int);
                        assert(mm.mass() > 0x400);
                    }
                    return false;
                }
                acc = nacc;
            }
            proof {
                assert(acc as int == fin_mass(mm.finals, s + 1));
            }
            s = s + 1;
        }
        let nt: usize = self.trs.len();
        let mut k: usize = 0;
        while k < nt
            invariant
                0 <= k <= nt,
                nt == self.trs@.len(),
                nf == self.finals@.len(),
                self.wf(),
                mm == self.m(),
                acc as int == fin_mass(mm.finals, nf as int) + trs_mass(mm.trs, k as int),
                acc <= 0x400,
            decreases nt - k,
        {
            proof {
                assert(mm.trs[k as int] == self.trs@[k as int].m());
            }
            let c: u32 = self.trs[k].cost;
            let nacc: u64 = acc + c as u64;
            proof {
                assert(trs_mass(mm.trs, k + 1) == trs_mass(mm.trs, k as int) + c as int);
            }
            if nacc > 0x400 {
                proof {
                    lemma_trs_mass_mono(mm.trs, k + 1, nt as int);
                    assert(mm.mass() > 0x400);
                }
                return false;
            }
            acc = nacc;
            k = k + 1;
        }
        proof {
            assert(mm.mass() == acc as int);
            assert(mm.nstates() <= 0x2000);
        }
        true
    }
}

/// The size of a machine: states and transitions together.
pub open spec fn msize(m: Mach) -> int {
    m.nstates() + m.trs.len()
}

/// Concatenation is at least as large as its operands and their joining
/// sums.
pub proof fn lemma_concat_msize(a: Mach, b: Mach)
    ensures
        msize(spec_concat(a, b)) >= a.finals.len() + b.finals.len(),
        msize(spec_concat(a, b)) >= a.trs.len() + a.finals.len() + b.trs.len(),
        msize(spec_concat(a, b)) >= msize(a),
        msize(spec_concat(a, b)) >= msize(b),
{
    lemma_glue_arcs_len(a.finals, a.nstates());
}

/// The glue block holds at most one arc per state.
pub proof fn lemma_glue_arcs_len(fin: Seq<Option<int>>, upto: int)
    ensures
        glue_arcs(fin, upto, 0).len() <= (if upto >= 0 {
            upto
        } else {
            0
        }),
        forall|dst: int|
            #[trigger] glue_arcs(fin, upto, dst).len() == glue_arcs(fin, upto, 0).len(),
    decreases upto,
{
    if upto > 0 {
        lemma_glue_arcs_len(fin, upto - 1);
        assert forall|dst: int|
            #[trigger] glue_arcs(fin, upto, dst).len() == glue_arcs(fin, upto, 0).len() by {
            assert(glue_arcs(fin, upto - 1, dst).len() == glue_arcs(fin, upto - 1, 0).len());
        }
    } else {
        assert forall|dst: int|
            #[trigger] glue_arcs(fin, upto, dst).len() == glue_arcs(fin, upto, 0).len() by {
            assert(glue_arcs(fin, upto, dst).len() == 0);
        }
    }
}

/// The union is at least as large as its operands and their joining sums.
pub proof fn lemma_union_msize(a: Mach, b: Mach)
    ensures
        msize(spec_union(a, b)) >= a.finals.len() + b.finals.len() + 1,
        msize(spec_union(a, b)) >= a.trs.len() + b.trs.len() + 2,
        msize(spec_union(a, b)) >= msize(a),
        msize(spec_union(a, b)) >= msize(b),
{
}

/// The closures and the optional wrapping are at least as large as their
/// body and its joining sums.
pub proof fn lemma_closure_msize(a: Mach)
    ensures
        msize(spec_closure_star(a)) >= a.finals.len() + 1,
        msize(spec_closure_star(a)) >= a.trs.len() + a.finals.len() + 1,
        msize(spec_closure_star(a)) >= msize(a),
        msize(spec_closure_plus(a)) >= a.trs.len() + a.finals.len(),
        msize(spec_closure_plus(a)) >= msize(a),
        msize(spec_optional(a)) >= a.finals.len() + 1,
        msize(spec_optional(a)) >= a.trs.len() + a.finals.len() + 1,
        msize(spec_optional(a)) >= msize(a),
{
    lemma_glue_arcs_len(a.finals, a.nstates());
}

/// True iff `a + b + c` fits in the index space./// True iff `a + b + c` fits in the index space.
fn sum3_fits(a: usize, b: usize, c: usize) -> (ok: bool)
    ensures
        ok == (a + b + c <= usize::MAX),
{
    if b <= usize::MAX - a {
        c <= usize::MAX - (a + b)
    } else {
        false
    }
}

impl Wfst {
    /// `concat_with`, guarded against index-space overflow: on `false`
    /// nothing changed.
    pub fn try_concat_with(&mut self, other: &Wfst) -> (ok: bool)
        requires
            old(self).wf(),
            other.wf(),
        ensures
            ok == (old(self).finals.len() + other.finals.len() <= usize::MAX && old(self).trs.len()
                + old(self).finals.len() + other.trs.len() <= usize::MAX),
            ok ==> final(self).m() == spec_concat(old(self).m(), other.m()) && final(self).wf(),
            !ok ==> *final(self) == *old(self),
    {
        if sum3_fits(self.finals.len(), other.finals.len(), 0) && sum3_fits(
            self.trs.len(),
            self.finals.len(),
            other.trs.len(),
        ) {
            self.concat_with(other);
            true
        } else {
            false
        }
    }

    /// `union_with`, guarded against index-space overflow: on `false` nothing
    /// changed.
    pub fn try_union_with(&mut self, other: &Wfst) -> (ok: bool)
        requires
            old(self).wf(),
            other.wf(),
        ensures
            ok == (old(self).finals.len() + other.finals.len() + 1 <= usize::MAX && old(
                self,
            ).trs.len() + other.trs.len() + 2 <= usize::MAX),
            ok ==> final(self).m() == spec_union(old(self).m(), other.m()) && final(self).wf(),
            !ok ==> *final(self) == *old(self),
    {
        if sum3_fits(self.finals.len(), other.finals.len(), 1) && sum3_fits(
            self.trs.len(),
            other.trs.len(),
            2,
        ) {
            self.union_with(other);
            true
        } else {
            false
        }
    }

    /// `close_star`, guarded against index-space overflow: on `false` nothing
    /// changed.
    pub fn try_close_star(&mut self) -> (ok: bool)
        requires
            old(self).wf(),
        ensures
            ok == (old(self).finals.len() + 1 <= usize::MAX && old(self).trs.len() + old(
                self,
            ).finals.len() + 1 <= usize::MAX),
            ok ==> final(self).m() == spec_closure_star(old(self).m()) && final(self).wf(),
            !ok ==> *final(self) == *old(self),
    {
        if sum3_fits(self.finals.len(), 1, 0) && sum3_fits(self.trs.len(), self.finals.len(), 1) {
            self.close_star();
            true
        } else {
            false
        }
    }

    /// `close_plus`, guarded against index-space overflow: on `false` nothing
    /// changed.
    pub fn try_close_plus(&mut self) -> (ok: bool)
        requires
            old(self).wf(),
        ensures
            ok == (old(self).trs.len() + old(self).finals.len() <= usize::MAX),
            ok ==> final(self).m() == spec_closure_plus(old(self).m()) && final(self).wf(),
            !ok ==> *final(self) == *old(self),
    {
        if sum3_fits(self.trs.len(), self.finals.len(), 0) {
            self.close_plus();
            true
        } else {
            false
        }
    }

    /// `make_optional`, guarded against index-space overflow: on `false`
    /// nothing changed.
    pub fn try_make_optional(&mut self) -> (ok: bool)
        requires
            old(self).wf(),
        ensures
            ok == (old(self).finals.len() + 1 <= usize::MAX && old(self).trs.len() + old(
                self,
            ).finals.len() + 1 <= usize::MAX),
            ok ==> final(self).m() == spec_optional(old(self).m()) && final(self).wf(),
            !ok ==> *final(self) == *old(self),
    {
        if sum3_fits(self.finals.len(), 1, 0) && sum3_fits(self.trs.len(), self.finals.len(), 1) {
            self.make_optional();
            true
        } else {
            false
        }
    }
}

/// `glue_arcs` holds an arc for every accepting state below `upto`.
pub proof fn lemma_glue_arcs_complete(fin: Seq<Option<int>>, upto: int, dst: int, s: int)
    requires
        0 <= s < upto,
        fin[s] is Some,
    ensures
        exists|j: int|
            0 <= j < glue_arcs(fin, upto, dst).len() && glue_arcs(fin, upto, dst)[j] == (GTr {
                from: s,
                il: 0,
                ol: 0,
                cost: fin[s]->0,
                to: dst,
            }),
    decreases upto,
{
    if s == upto - 1 {
        let j = glue_arcs(fin, upto - 1, dst).len() as int;
        assert(glue_arcs(fin, upto, dst)[j] == (GTr {
            from: s,
            il: 0,
            ol: 0,
            cost: fin[s]->0,
            to: dst,
        }));
    } else {
        lemma_glue_arcs_complete(fin, upto - 1, dst, s);
        let j = choose|j: int|
            0 <= j < glue_arcs(fin, upto - 1, dst).len() && #[trigger] glue_arcs(
                fin,
                upto - 1,
                dst,
            )[j] == (GTr { from: s, il: 0, ol: 0, cost: fin[s]->0, to: dst });
        assert(glue_arcs(fin, upto, dst)[j] == (GTr {
            from: s,
            il: 0,
            ol: 0,
            cost: fin[s]->0,
            to: dst,
        }));
    }
}

/// Shifted copies of `b`'s transitions lie within the appended region.
pub proof fn lemma_shifted_ok(a: Mach, b: Mach, na: int)
    requires
        b.wf(),
        na == a.nstates(),
    ensures
        forall|k: int|
            0 <= k < b.trs.len() ==> {
                let t = (#[trigger] b.trs[k]).shifted(na);
                &&& na <= t.from < na + b.nstates()
                &&& na <= t.to < na + b.nstates()
                &&& 0 <= t.il
                &&& 0 <= t.ol
                &&& 0 <= t.cost
            },
{
    assert forall|k: int| 0 <= k < b.trs.len() implies {
        let t = (#[trigger] b.trs[k]).shifted(na);
        &&& na <= t.from < na + b.nstates()
        &&& na <= t.to < na + b.nstates()
        &&& 0 <= t.il
        &&& 0 <= t.ol
        &&& 0 <= t.cost
    } by {
        assert(b.tr_ok(b.trs[k]));
    }
}

/// Every arc that `glue_arcs` yields keeps its endpoints among the first
/// `upto` states and `dst`, and its cost is an acceptance cost of `fin`.
pub proof fn lemma_glue_arcs_ok(fin: Seq<Option<int>>, upto: int, dst: int)
    requires
        upto <= fin.len(),
        forall|s: int| 0 <= s < fin.len() && #[trigger] fin[s] is Some ==> fin[s]->0 >= 0,
    ensures
        forall|k: int|
            0 <= k < glue_arcs(fin, upto, dst).len() ==> {
                let t = #[trigger] glue_arcs(fin, upto, dst)[k];
                &&& 0 <= t.from < upto
                &&& fin[t.from] is Some
                &&& t.cost == fin[t.from]->0
                &&& t.il == 0
                &&& t.ol == 0
                &&& t.to == dst
            },
    decreases upto,
{
    if upto > 0 {
        lemma_glue_arcs_ok(fin, upto - 1, dst);
    }
}

} // verus!
