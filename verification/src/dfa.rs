//! Deterministic finite automata: the data, what it means to read a word,
//! and the accessors that render an automaton by the names of its states.

use crate::names::{copy_names, position};
use vstd::prelude::*;

verus! {

/// A deterministic automaton as a mathematical object.
///
/// States are numbered from 0; `names[i]` is the display name of state `i`.
/// `table[i][a]` is where state `i` goes on the symbol `alphabet[a]`: to a
/// state, or, where it is `None`, to the dead state, which rejects every word
/// and is not numbered.
pub struct DfaView {
    pub alphabet: Seq<Seq<char>>,
    pub names: Seq<Seq<char>>,
    pub start: usize,
    pub accepting: Seq<bool>,
    pub table: Seq<Seq<Option<usize>>>,
}

impl DfaView {
    /// The number of states, the dead state not counted.
    pub open spec fn len(self) -> nat {
        self.names.len()
    }

    /// Every state has a name, a mark and one transition per symbol, and
    /// every transition leads to a state or to the dead state.
    pub open spec fn well_formed(self) -> bool {
        &&& self.alphabet.no_duplicates()
        &&& self.names.len() <= usize::MAX
        &&& self.accepting.len() == self.names.len()
        &&& self.table.len() == self.names.len()
        &&& self.start < self.names.len()
        &&& forall|i: int|
            0 <= i < self.table.len() ==> (#[trigger] self.table[i]).len() == self.alphabet.len()
        &&& forall|i: int, a: int|
            0 <= i < self.table.len() && 0 <= a < self.alphabet.len() ==> self.leads_inside(
                #[trigger] self.table[i][a],
            )
    }

    /// `s` is the dead state or one of the numbered states.
    pub open spec fn leads_inside(self, s: Option<usize>) -> bool {
        s matches Some(j) ==> j < self.names.len()
    }

    /// The state reached from `s` by reading the symbol `x`. The dead state
    /// is never left, and a symbol outside the alphabet leads to it.
    pub open spec fn step(self, s: Option<usize>, x: Seq<char>) -> Option<usize> {
        match s {
            Some(i) => if self.alphabet.contains(x) {
                self.table[i as int][self.alphabet.index_of(x)]
            } else {
                None
            },
            None => None,
        }
    }

    /// The state reached from `s` by reading the word `w`.
    pub open spec fn run_from(self, s: Option<usize>, w: Seq<Seq<char>>) -> Option<usize>
        decreases w.len(),
    {
        if w.len() == 0 {
            s
        } else {
            self.run_from(self.step(s, w[0]), w.drop_first())
        }
    }

    /// `s` is a state marked as final.
    pub open spec fn is_accepting(self, s: Option<usize>) -> bool {
        s matches Some(i) && self.accepting[i as int]
    }

    /// Reading `w` from `s` ends in a final state.
    pub open spec fn accepts_from(self, s: Option<usize>, w: Seq<Seq<char>>) -> bool {
        self.is_accepting(self.run_from(s, w))
    }

    /// The state reached from the start state by reading `w`.
    pub open spec fn run(self, w: Seq<Seq<char>>) -> Option<usize> {
        self.run_from(Some(self.start), w)
    }

    /// The automaton accepts the word `w`.
    pub open spec fn accepts(self, w: Seq<Seq<char>>) -> bool {
        self.accepts_from(Some(self.start), w)
    }

    /// No word tells `p` from `q`: the same words are accepted from both.
    pub open spec fn equivalent(self, p: Option<usize>, q: Option<usize>) -> bool {
        forall|w: Seq<Seq<char>>| self.accepts_from(p, w) == self.accepts_from(q, w)
    }

    /// No two different states accept the same words.
    pub open spec fn reduced(self) -> bool {
        forall|i: usize, j: usize|
            i < self.len() && j < self.len() && i != j ==> !#[trigger] self.equivalent(
                Some(i),
                Some(j),
            )
    }

    /// The name under which a transition's destination is shown: the name of
    /// the state, or the empty name for the dead state.
    pub open spec fn target_name(self, s: Option<usize>) -> Seq<char> {
        match s {
            Some(j) => self.names[j as int],
            None => Seq::empty(),
        }
    }

    /// The names of the final states among the first `k` states, in the
    /// order of the states.
    pub open spec fn final_names(self, k: int) -> Seq<Seq<char>>
        decreases k,
    {
        if k <= 0 {
            Seq::empty()
        } else if self.accepting[k - 1] {
            self.final_names(k - 1).push(self.names[k - 1])
        } else {
            self.final_names(k - 1)
        }
    }

    /// In a well-formed automaton a state goes on the `a`-th symbol where
    /// the table says.
    pub proof fn lemma_step_symbol(self, i: usize, a: int)
        requires
            self.well_formed(),
            0 <= a < self.alphabet.len(),
        ensures
            self.step(Some(i), self.alphabet[a]) == self.table[i as int][a],
    {
        let x = self.alphabet[a];
        assert(self.alphabet.contains(x));
        let b = self.alphabet.index_of(x);
        assert(0 <= b < self.alphabet.len() && self.alphabet[b] == x);
    }

    /// Every step from a state of a well-formed automaton leads to a state of
    /// it or to the dead state.
    pub proof fn lemma_step_inside(self, s: Option<usize>, x: Seq<char>)
        requires
            self.well_formed(),
            self.leads_inside(s),
        ensures
            self.leads_inside(self.step(s, x)),
    {
        if s is Some && self.alphabet.contains(x) {
            let b = self.alphabet.index_of(x);
            assert(0 <= b < self.alphabet.len() && self.alphabet[b] == x);
            assert(self.leads_inside(self.table[s.unwrap() as int][b]));
        }
    }

    /// Nothing is accepted from the dead state.
    pub proof fn lemma_dead_rejects(self, w: Seq<Seq<char>>)
        ensures
            self.run_from(None, w) == None::<usize>,
            !self.accepts_from(None, w),
        decreases w.len(),
    {
        if w.len() > 0 {
            self.lemma_dead_rejects(w.drop_first());
        }
    }

    /// Reading `x` and then `w` is stepping on `x` and then reading `w`.
    pub proof fn lemma_read_first(self, s: Option<usize>, x: Seq<char>, w: Seq<Seq<char>>)
        ensures
            self.run_from(s, seq![x] + w) == self.run_from(self.step(s, x), w),
            self.accepts_from(s, seq![x] + w) == self.accepts_from(self.step(s, x), w),
    {
        let xw = seq![x] + w;
        assert(xw[0] == x);
        assert(xw.drop_first() =~= w);
    }

    /// States that no word tells apart go, on every symbol, to states that no
    /// word tells apart.
    pub proof fn lemma_equivalent_step(self, p: Option<usize>, q: Option<usize>, x: Seq<char>)
        requires
            self.equivalent(p, q),
        ensures
            self.equivalent(self.step(p, x), self.step(q, x)),
    {
        assert forall|w: Seq<Seq<char>>|
            self.accepts_from(self.step(p, x), w) == self.accepts_from(self.step(q, x), w) by {
            self.lemma_read_first(p, x, w);
            self.lemma_read_first(q, x, w);
        }
    }
}

/// A deterministic finite automaton. Every value of this type is well
/// formed.
#[derive(Debug)]
pub struct Dfa {
    pub(crate) alphabet: Vec<String>,
    pub(crate) names: Vec<String>,
    pub(crate) start: usize,
    pub(crate) accepting: Vec<bool>,
    pub(crate) table: Vec<Vec<Option<usize>>>,
}

impl View for Dfa {
    type V = DfaView;

    closed spec fn view(&self) -> DfaView {
        DfaView {
            alphabet: self.alphabet.deep_view(),
            names: self.names.deep_view(),
            start: self.start,
            accepting: self.accepting@,
            table: rows(self.table),
        }
    }
}

/// The rows of a transition table as sequences.
pub open spec fn rows(table: Vec<Vec<Option<usize>>>) -> Seq<Seq<Option<usize>>> {
    Seq::new(table.len() as nat, |i: int| table[i]@)
}

impl Dfa {
    /// What holds of every automaton of this type.
    #[verifier::type_invariant]
    pub open spec fn inv(&self) -> bool {
        self@.well_formed()
    }

    /// An automaton made of its parts.
    pub(crate) fn assemble(
        alphabet: Vec<String>,
        names: Vec<String>,
        start: usize,
        accepting: Vec<bool>,
        table: Vec<Vec<Option<usize>>>,
    ) -> (dfa: Dfa)
        requires
            (DfaView {
                alphabet: alphabet.deep_view(),
                names: names.deep_view(),
                start,
                accepting: accepting@,
                table: rows(table),
            }).well_formed(),
        ensures
            dfa@ == (DfaView {
                alphabet: alphabet.deep_view(),
                names: names.deep_view(),
                start,
                accepting: accepting@,
                table: rows(table),
            }),
    {
        Dfa { alphabet, names, start, accepting, table }
    }

    /// The number of symbols of the alphabet.
    pub(crate) fn symbol_count(&self) -> (m: usize)
        ensures
            m == self@.alphabet.len(),
    {
        self.alphabet.len()
    }

    /// The name of state `i`.
    pub(crate) fn name(&self, i: usize) -> (x: &String)
        requires
            i < self@.len(),
        ensures
            x@ == self@.names[i as int],
    {
        &self.names[i]
    }

    /// The number of the start state.
    pub(crate) fn start_index(&self) -> (i: usize)
        ensures
            i == self@.start,
            i < self@.len(),
    {
        proof {
            use_type_invariant(self);
        }
        self.start
    }

    /// Whether state `i` is final.
    pub(crate) fn is_final(&self, i: usize) -> (r: bool)
        requires
            i < self@.len(),
        ensures
            r == self@.accepting[i as int],
    {
        proof {
            use_type_invariant(self);
        }
        self.accepting[i]
    }

    /// Where state `i` goes on the `a`-th symbol.
    pub(crate) fn target(&self, i: usize, a: usize) -> (t: Option<usize>)
        requires
            i < self@.len(),
            a < self@.alphabet.len(),
        ensures
            t == self@.table[i as int][a as int],
            self@.leads_inside(t),
    {
        proof {
            use_type_invariant(self);
            assert(self@.table[i as int].len() == self@.alphabet.len());
            assert(self@.leads_inside(self@.table[i as int][a as int]));
        }
        self.table[i][a]
    }

    /// The number of states.
    pub fn len(&self) -> (n: usize)
        ensures
            n == self@.len(),
    {
        self.names.len()
    }

    /// The name of the start state.
    pub fn start(&self) -> (name: String)
        ensures
            name@ == self@.names[self@.start as int],
    {
        proof {
            use_type_invariant(self);
        }
        self.names[self.start].clone()
    }

    /// The symbols of the alphabet, in the order of the transition table.
    pub fn alphabet(&self) -> (symbols: Vec<String>)
        ensures
            symbols.deep_view() == self@.alphabet,
    {
        copy_names(&self.alphabet)
    }

    /// The names of the final states, in the order of the states.
    pub fn final_states(&self) -> (finals: Vec<String>)
        ensures
            finals.deep_view() == self@.final_names(self@.len() as int),
    {
        proof {
            use_type_invariant(self);
        }
        let mut finals: Vec<String> = Vec::new();
        let mut i: usize = 0;
        while i < self.names.len()
            invariant
                i <= self.names.len(),
                self.accepting.len() == self.names.len(),
                finals.deep_view() == self@.final_names(i as int),
            decreases self.names.len() - i,
        {
            if self.accepting[i] {
                finals.push(self.names[i].clone());
                assert(finals.deep_view() =~= self@.final_names(i as int).push(
                    self@.names[i as int],
                ));
            }
            i += 1;
        }
        finals
    }

    /// The transition table by names: for every state its name and, for
    /// every symbol of the alphabet, the symbol and the name of the state it
    /// leads to. The dead state is shown by the empty name.
    pub fn nodes(&self) -> (nodes: Vec<(String, Vec<(String, String)>)>)
        ensures
            nodes.len() == self@.len(),
            forall|i: int|
                0 <= i < nodes.len() ==> {
                    &&& (#[trigger] nodes[i]).0@ == self@.names[i]
                    &&& nodes[i].1.len() == self@.alphabet.len()
                },
            forall|i: int, a: int|
                0 <= i < nodes.len() && 0 <= a < self@.alphabet.len() ==> {
                    &&& (#[trigger] nodes[i].1[a]).0@ == self@.alphabet[a]
                    &&& nodes[i].1[a].1@ == self@.target_name(self@.table[i][a])
                },
    {
        proof {
            use_type_invariant(self);
        }
        let mut nodes: Vec<(String, Vec<(String, String)>)> = Vec::new();
        let mut i: usize = 0;
        while i < self.names.len()
            invariant
                i <= self.names.len(),
                self@.well_formed(),
                nodes.len() == i,
                forall|k: int|
                    0 <= k < i ==> {
                        &&& (#[trigger] nodes[k]).0@ == self@.names[k]
                        &&& nodes[k].1.len() == self@.alphabet.len()
                    },
                forall|k: int, a: int|
                    0 <= k < i && 0 <= a < self@.alphabet.len() ==> {
                        &&& (#[trigger] nodes[k].1[a]).0@ == self@.alphabet[a]
                        &&& nodes[k].1[a].1@ == self@.target_name(self@.table[k][a])
                    },
            decreases self.names.len() - i,
        {
            let row = self.row(i);
            nodes.push((self.names[i].clone(), row));
            i += 1;
        }
        nodes
    }

    /// The transitions of state `i` by names.
    fn row(&self, i: usize) -> (row: Vec<(String, String)>)
        requires
            i < self@.len(),
        ensures
            row.len() == self@.alphabet.len(),
            forall|a: int|
                0 <= a < row.len() ==> {
                    &&& (#[trigger] row[a]).0@ == self@.alphabet[a]
                    &&& row[a].1@ == self@.target_name(self@.table[i as int][a])
                },
    {
        proof {
            use_type_invariant(self);
        }
        let mut row: Vec<(String, String)> = Vec::new();
        let mut a: usize = 0;
        assert(self@.table[i as int].len() == self@.alphabet.len());
        while a < self.alphabet.len()
            invariant
                a <= self.alphabet.len(),
                self@.well_formed(),
                i < self@.len(),
                row.len() == a,
                forall|b: int|
                    0 <= b < a ==> {
                        &&& (#[trigger] row[b]).0@ == self@.alphabet[b]
                        &&& row[b].1@ == self@.target_name(self@.table[i as int][b])
                    },
            decreases self.alphabet.len() - a,
        {
            assert(self@.table[i as int].len() == self@.alphabet.len());
            assert(self@.leads_inside(self@.table[i as int][a as int]));
            let target = match self.table[i][a] {
                Some(j) => self.names[j].clone(),
                None => String::new(),
            };
            row.push((self.alphabet[a].clone(), target));
            a += 1;
        }
        row
    }

    /// Whether the automaton accepts the word.
    pub fn accepts(&self, word: &Vec<String>) -> (r: bool)
        ensures
            r == self@.accepts(word.deep_view()),
    {
        proof {
            use_type_invariant(self);
        }
        let ghost w = word.deep_view();
        let mut state: Option<usize> = Some(self.start);
        let mut k: usize = 0;
        assert(w.skip(0) =~= w);
        while k < word.len()
            invariant
                k <= word.len(),
                w == word.deep_view(),
                self@.well_formed(),
                self@.leads_inside(state),
                self@.accepts(w) == self@.accepts_from(state, w.skip(k as int)),
            decreases word.len() - k,
        {
            let ghost rest = w.skip(k as int);
            proof {
                assert(rest[0] == word[k as int]@);
                assert(rest.drop_first() =~= w.skip(k + 1));
                self@.lemma_step_inside(state, rest[0]);
            }
            state = self.step(state, &word[k]);
            k += 1;
        }
        assert(w.skip(k as int).len() == 0);
        match state {
            Some(i) => self.accepting[i],
            None => false,
        }
    }

    /// The state reached from `state` by reading `symbol`.
    fn step(&self, state: Option<usize>, symbol: &String) -> (next: Option<usize>)
        requires
            self@.leads_inside(state),
        ensures
            next == self@.step(state, symbol@),
    {
        proof {
            use_type_invariant(self);
        }
        match state {
            Some(i) => match position(&self.alphabet, symbol) {
                Some(a) => {
                    proof {
                        assert(self@.alphabet[a as int] == symbol@);
                        self@.lemma_step_symbol(i, a as int);
                        assert(self@.table[i as int].len() == self@.alphabet.len());
                    }
                    self.table[i][a]
                },
                None => {
                    assert(!self@.alphabet.contains(symbol@));
                    None
                },
            },
            None => None,
        }
    }
}

} // verus!
