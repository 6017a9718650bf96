//! The shared symbol table (symbols against integer labels, label 0 being
//! epsilon) and the macro table built up while a script is compiled.

use vstd::prelude::*;
use crate::ast::RegexAST;

verus! {

/// First index at or after `from` where `sym` occurs in `st`.
pub open spec fn spec_label(st: Seq<Seq<char>>, sym: Seq<char>, from: int) -> Option<int>
    decreases st.len() - from,
{
    if from < 0 || from >= st.len() {
        None
    } else if st[from] == sym {
        Some(from)
    } else {
        spec_label(st, sym, from + 1)
    }
}

/// How the first-occurrence lookup behaves when one symbol is appended.
proof fn lemma_spec_label_push(st: Seq<Seq<char>>, x: Seq<char>, y: Seq<char>, from: int)
    requires
        0 <= from <= st.len(),
    ensures
        spec_label(st.push(x), y, from) == (match spec_label(st, y, from) {
            Some(l) => Some(l),
            None => if y == x {
                Some(st.len() as int)
            } else {
                None
            },
        }),
    decreases st.len() - from,
{
    if from == st.len() {
        assert(st.push(x)[from] == x);
        assert(spec_label(st.push(x), y, from + 1) is None);
    } else {
        assert(st.push(x)[from] == st[from]);
        lemma_spec_label_push(st, x, y, from + 1);
    }
}

/// The table the given symbols determine: epsilon first, then each input
/// symbol in first-occurrence order, one slot per distinct symbol.
pub open spec fn dedup_syms(symbols: Seq<String>, k: int) -> Seq<Seq<char>>
    decreases k,
{
    if k <= 0 {
        seq!["<eps>"@]
    } else {
        let pre = dedup_syms(symbols, k - 1);
        if spec_label(pre, symbols[k - 1]@, 0) is Some {
            pre
        } else {
            pre.push(symbols[k - 1]@)
        }
    }
}

/// Slot `l` of the table holds one of the given symbols.
pub open spec fn from_inputs(st: Seq<Seq<char>>, symbols: Seq<String>, l: int) -> bool {
    exists|x: int| 0 <= x < symbols.len() && st[l] == #[trigger] symbols[x]@
}

/// Bidirectional mapping between symbols and labels: the symbol at index `l`
/// has label `l`. Index 0 is reserved for epsilon. The table is read-only
/// once built; lookups return the first (lowest) label of a symbol.
pub struct SymTab {
    pub syms: Vec<String>,
}

impl SymTab {
    pub open spec fn view(self) -> Seq<Seq<char>> {
        self.syms@.map(|i: int, s: String| s@)
    }

    /// A table over the given symbols: epsilon at label 0, then each
    /// distinct symbol in order of first occurrence. Duplicates are dropped,
    /// so symbols and labels are mutually inverse: looking a held symbol up
    /// gives back exactly its slot.
    pub fn new(symbols: &Vec<String>) -> (r: SymTab)
        ensures
            r@ == dedup_syms(symbols@, symbols@.len() as int),
            1 <= r@.len(),
            r@[0] == "<eps>"@,
            forall|l: int| 0 <= l < r@.len() ==> spec_label(r@, #[trigger] r@[l], 0) == Some(l),
            forall|x: int|
                0 <= x < symbols@.len() ==> spec_label(r@, #[trigger] symbols@[x]@, 0) is Some,
            forall|l: int| 1 <= l < r@.len() ==> #[trigger] from_inputs(r@, symbols@, l),
            r@.len() <= symbols@.len() + 1,
    {
        let mut syms: Vec<String> = Vec::new();
        syms.push("<eps>".to_owned());
        let mut r = SymTab { syms };
        proof {
            assert(r@ =~= seq!["<eps>"@]);
            assert(r@ == dedup_syms(symbols@, 0));
            assert(spec_label(r@, r@[0], 1) is None);
            assert(spec_label(r@, r@[0], 0) == Some(0int));
        }
        let n: usize = symbols.len();
        let mut i: usize = 0;
        while i < n
            invariant
                0 <= i <= n,
                n == symbols@.len(),
                r@ == dedup_syms(symbols@, i as int),
                1 <= r@.len() <= i + 1,
                r@[0] == "<eps>"@,
                forall|l: int| 0 <= l < r@.len() ==> spec_label(r@, #[trigger] r@[l], 0) == Some(l),
                forall|x: int|
                    0 <= x < i ==> spec_label(r@, #[trigger] symbols@[x]@, 0) is Some,
                forall|l: int| 1 <= l < r@.len() ==> #[trigger] from_inputs(r@, symbols@, l),
            decreases n - i,
        {
            match r.label_of(&symbols[i]) {
                Some(_) => {
                    proof {
                        assert(r@ == dedup_syms(symbols@, i + 1));
                    }
                },
                None => {
                    let ghost pre: Seq<Seq<char>> = r@;
                    let ghost sv: Seq<char> = symbols@[i as int]@;
                    r.syms.push(symbols[i].clone());
                    proof {
                        assert(r@ =~= pre.push(sv));
                        assert(r@ == dedup_syms(symbols@, i + 1));
                        assert forall|l: int|
                            0 <= l < r@.len() implies spec_label(r@, #[trigger] r@[l], 0) == Some(
                            l,
                        ) by {
                            if l < pre.len() {
                                assert(r@[l] == pre[l]);
                                lemma_spec_label_push(pre, sv, pre[l], 0);
                            } else {
                                assert(r@[l] == sv);
                                lemma_spec_label_push(pre, sv, sv, 0);
                            }
                        }
                        assert forall|x: int|
                            0 <= x < i + 1 implies spec_label(
                            r@,
                            #[trigger] symbols@[x]@,
                            0,
                        ) is Some by {
                            lemma_spec_label_push(pre, sv, symbols@[x]@, 0);
                        }
                        assert forall|l: int|
                            1 <= l < r@.len() implies #[trigger] from_inputs(
                            r@,
                            symbols@,
                            l,
                        ) by {
                            if l < pre.len() {
                                assert(r@[l] == pre[l]);
                                assert(from_inputs(pre, symbols@, l));
                                let x0 = choose|x: int|
                                    0 <= x < symbols@.len() && pre[l] == #[trigger] symbols@[x]@;
                                assert(r@[l] == symbols@[x0]@);
                            } else {
                                assert(r@[l] == symbols@[i as int]@);
                            }
                        }
                    }
                },
            }
            i = i + 1;
        }
        r
    }

    pub fn len(&self) -> (n: usize)
        ensures
            n == self@.len(),
    {
        self.syms.len()
    }

    /// The label of `sym`, if the table holds it.
    pub fn label_of(&self, sym: &String) -> (r: Option<usize>)
        ensures
            match r {
                Some(l) => spec_label(self@, sym@, 0) == Some(l as int) && l < self@.len(),
                None => spec_label(self@, sym@, 0) is None,
            },
    {
        let n: usize = self.syms.len();
        let mut i: usize = 0;
        while i < n
            invariant
                0 <= i <= n,
                n == self.syms@.len(),
                spec_label(self@, sym@, 0) == spec_label(self@, sym@, i as int),
            decreases n - i,
        {
            let eqr: bool = self.syms[i].eq(sym);
            proof {
                assert(self@[i as int] == self.syms@[i as int]@);
            }
            if eqr {
                return Some(i);
            }
            i = i + 1;
        }
        None
    }

    /// The label of the one-character symbol `c`, if the table holds it.
    pub fn label_of_char(&self, c: char) -> (r: Option<usize>)
        ensures
            match r {
                Some(l) => spec_label(self@, seq![c], 0) == Some(l as int) && l < self@.len(),
                None => spec_label(self@, seq![c], 0) is None,
            },
    {
        let n: usize = self.syms.len();
        let mut i: usize = 0;
        while i < n
            invariant
                0 <= i <= n,
                n == self.syms@.len(),
                spec_label(self@, seq![c], 0) == spec_label(self@, seq![c], i as int),
            decreases n - i,
        {
            let s: &String = &self.syms[i];
            let st: &str = s.as_str();
            proof {
                assert(self@[i as int] == self.syms@[i as int]@);
            }
            if st.unicode_len() == 1 && st.get_char(0) == c {
                proof {
                    assert(self@[i as int] =~= seq![c]);
                }
                return Some(i);
            }
            proof {
                assert(self@[i as int] != seq![c]);
            }
            i = i + 1;
        }
        None
    }
}

/// First definition at or after `from` whose name is `name`.
pub open spec fn spec_macro(
    ms: Seq<(Seq<char>, RegexAST)>,
    name: Seq<char>,
    from: int,
) -> Option<RegexAST>
    decreases ms.len() - from,
{
    if from < 0 || from >= ms.len() {
        None
    } else if ms[from].0 == name {
        Some(ms[from].1)
    } else {
        spec_macro(ms, name, from + 1)
    }
}

/// Macro definitions in the order they were accepted. The first definition
/// of a name wins: a later definition of the same name is refused, never a
/// silent replacement.
pub struct MacroTable {
    pub defs: Vec<(String, RegexAST)>,
}

impl MacroTable {
    pub open spec fn view(self) -> Seq<(Seq<char>, RegexAST)> {
        self.defs@.map(|i: int, p: (String, RegexAST)| (p.0@, p.1))
    }

    pub fn new() -> (r: MacroTable)
        ensures
            r@ =~= Seq::<(Seq<char>, RegexAST)>::empty(),
    {
        MacroTable { defs: Vec::new() }
    }

    /// The definition bound to `name`, if any.
    pub fn get(&self, name: &String) -> (r: Option<&RegexAST>)
        ensures
            match r {
                Some(d) => spec_macro(self@, name@, 0) == Some(*d),
                None => spec_macro(self@, name@, 0) is None,
            },
    {
        let n: usize = self.defs.len();
        let mut i: usize = 0;
        while i < n
            invariant
                0 <= i <= n,
                n == self.defs@.len(),
                spec_macro(self@, name@, 0) == spec_macro(self@, name@, i as int),
            decreases n - i,
        {
            let eqr: bool = self.defs[i].0.eq(name);
            proof {
                assert(self@[i as int] == (self.defs@[i as int].0@, self.defs@[i as int].1));
            }
            if eqr {
                return Some(&self.defs[i].1);
            }
            i = i + 1;
        }
        None
    }

    /// Binds `name` to `def` unless `name` is already bound; reports whether
    /// the binding was accepted, so a caller can raise a diagnostic on an
    /// attempted redefinition.
    pub fn insert_first_wins(&mut self, name: String, def: RegexAST) -> (added: bool)
        ensures
            added == (spec_macro(old(self)@, name@, 0) is None),
            added ==> final(self)@ =~= old(self)@ + seq![(name@, def)],
            !added ==> final(self)@ == old(self)@,
    {
        if self.get(&name).is_some() {
            return false;
        }
        let ghost nv: Seq<char> = name@;
        let ghost dv: RegexAST = def;
        self.defs.push((name, def));
        proof {
            assert(self@ =~= old(self)@ + seq![(nv, dv)]);
        }
        true
    }
}

} // verus!
