//! Nondeterministic finite automata as they are handed in: the data, what it
//! means to read a word, and the validation that every later stage relies on.

use crate::names::position;
use vstd::prelude::*;

verus! {

/// Tells whether an automaton has been validated.
pub trait Marker {
    /// Automata that carry this marker are well formed.
    spec fn checked() -> bool;
}

/// Marker for unsanitized input.
#[derive(Debug)]
pub struct Unsanitary;

/// Marker for sanitized input.
#[derive(Debug)]
pub struct Sanitary;

impl Marker for Unsanitary {
    open spec fn checked() -> bool {
        false
    }
}

impl Marker for Sanitary {
    open spec fn checked() -> bool {
        true
    }
}

/// Used to represent errors.
#[derive(Debug)]
pub enum NfaError {
    UnknownState(String),
    UnknownSymbol(String),
}

/// An error as a mathematical object.
pub enum NfaErrorView {
    UnknownState(Seq<char>),
    UnknownSymbol(Seq<char>),
}

impl View for NfaError {
    type V = NfaErrorView;

    open spec fn view(&self) -> NfaErrorView {
        match self {
            NfaError::UnknownState(s) => NfaErrorView::UnknownState(s@),
            NfaError::UnknownSymbol(s) => NfaErrorView::UnknownSymbol(s@),
        }
    }
}

impl NfaError {
    /// The error in words.
    pub fn message(&self) -> (text: String)
        ensures
            text@ == match self@ {
                NfaErrorView::UnknownState(s) => "unknown state: "@ + s,
                NfaErrorView::UnknownSymbol(s) => "unknown symbol: "@ + s,
            },
    {
        match self {
            NfaError::UnknownState(s) => String::from_str("unknown state: ").concat(s.as_str()),
            NfaError::UnknownSymbol(s) => String::from_str("unknown symbol: ").concat(s.as_str()),
        }
    }
}

/// A nondeterministic automaton as a mathematical object.
///
/// `nodes` lists the states: each with its name and its transitions, and
/// each transition with its symbol and the names of the states it leads to.
/// Where a state or a symbol is listed more than once, what is listed adds
/// up.
pub struct NfaView {
    pub start: Seq<char>,
    pub final_states: Seq<Seq<char>>,
    pub alphabet: Seq<Seq<char>>,
    pub nodes: Seq<(Seq<char>, Seq<(Seq<char>, Seq<Seq<char>>)>)>,
}

/// A place in the description of an automaton where something may be
/// referred to that has not been declared.
pub enum Place {
    /// The start state.
    Start,
    /// The final state listed at the given position.
    Final(int),
    /// The symbol of a transition, given by the positions of the state and
    /// of the transition.
    Symbol(int, int),
    /// A destination of a transition, given by the positions of the state,
    /// of the transition and of the destination.
    Target(int, int, int),
}

impl NfaView {
    /// `q` is the name of a state.
    pub open spec fn has_state(self, q: Seq<char>) -> bool {
        exists|i: int| 0 <= i < self.nodes.len() && (#[trigger] self.nodes[i]).0 == q
    }

    /// `q` is the name of a final state.
    pub open spec fn is_final(self, q: Seq<char>) -> bool {
        self.final_states.contains(q)
    }

    /// `x` is a symbol of the alphabet.
    pub open spec fn has_symbol(self, x: Seq<char>) -> bool {
        self.alphabet.contains(x)
    }

    /// The state listed at `i` has a transition listed at `j`.
    pub open spec fn is_move(self, i: int, j: int) -> bool {
        0 <= i < self.nodes.len() && 0 <= j < self.nodes[i].1.len()
    }

    /// The transition listed at `j` of the state listed at `i` has a
    /// destination listed at `k`.
    pub open spec fn is_edge(self, i: int, j: int, k: int) -> bool {
        self.is_move(i, j) && 0 <= k < self.nodes[i].1[j].1.len()
    }

    /// The symbol of the transition listed at `j` of the state listed at `i`.
    pub open spec fn symbol_at(self, i: int, j: int) -> Seq<char> {
        self.nodes[i].1[j].0
    }

    /// The destination listed at `k` of that transition.
    pub open spec fn target_at(self, i: int, j: int, k: int) -> Seq<char> {
        self.nodes[i].1[j].1[k]
    }

    /// The state `q` can go to the state `t` on the symbol `x`.
    pub open spec fn moves(self, q: Seq<char>, x: Seq<char>, t: Seq<char>) -> bool {
        exists|i: int, j: int, k: int| #[trigger]
            self.is_edge(i, j, k) && self.nodes[i].0 == q && self.symbol_at(i, j) == x
                && self.target_at(i, j, k) == t
    }

    /// The states that one of the states of `from` can go to on `x`.
    pub open spec fn step(self, from: Set<Seq<char>>, x: Seq<char>) -> Set<Seq<char>> {
        Set::new(|t: Seq<char>| exists|q: Seq<char>| from.contains(q) && self.moves(q, x, t))
    }

    /// The states that the automaton can be in after reading `w`, having
    /// been in one of the states of `from`.
    pub open spec fn reach_from(self, from: Set<Seq<char>>, w: Seq<Seq<char>>) -> Set<Seq<char>>
        decreases w.len(),
    {
        if w.len() == 0 {
            from
        } else {
            self.reach_from(self.step(from, w[0]), w.drop_first())
        }
    }

    /// One of the states of `set` is final.
    pub open spec fn meets_final(self, set: Set<Seq<char>>) -> bool {
        exists|q: Seq<char>| set.contains(q) && self.is_final(q)
    }

    /// Reading `w` from one of the states of `from` can end in a final
    /// state.
    pub open spec fn accepts_from(self, from: Set<Seq<char>>, w: Seq<Seq<char>>) -> bool {
        self.meets_final(self.reach_from(from, w))
    }

    /// The states that the automaton can be in after reading `w`.
    pub open spec fn reach(self, w: Seq<Seq<char>>) -> Set<Seq<char>> {
        self.reach_from(set![self.start], w)
    }

    /// The automaton accepts the word `w`.
    pub open spec fn accepts(self, w: Seq<Seq<char>>) -> bool {
        self.accepts_from(set![self.start], w)
    }

    /// Everything referred to has been declared: the start state, the final
    /// states and the destinations of the transitions are states, and the
    /// symbols of the transitions belong to the alphabet.
    pub open spec fn well_formed(self) -> bool {
        &&& self.has_state(self.start)
        &&& forall|f: int|
            0 <= f < self.final_states.len() ==> self.has_state(#[trigger] self.final_states[f])
        &&& forall|i: int, j: int| #[trigger]
            self.is_move(i, j) ==> self.has_symbol(self.symbol_at(i, j))
        &&& forall|i: int, j: int, k: int| #[trigger]
            self.is_edge(i, j, k) ==> self.has_state(self.target_at(i, j, k))
    }

    /// At `place` something is referred to that has not been declared.
    pub open spec fn defect(self, place: Place) -> bool {
        match place {
            Place::Start => !self.has_state(self.start),
            Place::Final(f) => 0 <= f < self.final_states.len() && !self.has_state(
                self.final_states[f],
            ),
            Place::Symbol(i, j) => self.is_move(i, j) && !self.has_symbol(self.symbol_at(i, j)),
            Place::Target(i, j, k) => self.is_edge(i, j, k) && !self.has_state(
                self.target_at(i, j, k),
            ),
        }
    }

    /// The error that reports what is referred to at `place`.
    pub open spec fn report(self, place: Place) -> NfaErrorView {
        match place {
            Place::Start => NfaErrorView::UnknownState(self.start),
            Place::Final(f) => NfaErrorView::UnknownState(self.final_states[f]),
            Place::Symbol(i, j) => NfaErrorView::UnknownSymbol(self.symbol_at(i, j)),
            Place::Target(i, j, k) => NfaErrorView::UnknownState(self.target_at(i, j, k)),
        }
    }

    /// The first defect of an automaton is the one that validation reports.
    /// It has no defect before it.
    pub open spec fn first_defect(self, place: Place) -> bool {
        &&& self.defect(place)
        &&& forall|other: Place| #[trigger] self.defect(other) ==> !looked_at_before(other, place)
    }

    /// An automaton is well formed exactly if it has no defect.
    pub proof fn lemma_no_defect(self)
        ensures
            self.well_formed() <==> forall|place: Place| !#[trigger] self.defect(place),
    {
        if forall|place: Place| !#[trigger] self.defect(place) {
            assert(!self.defect(Place::Start));
            assert forall|f: int| 0 <= f < self.final_states.len() implies self.has_state(
                #[trigger] self.final_states[f],
            ) by {
                assert(!self.defect(Place::Final(f)));
            }
            assert forall|i: int, j: int| #[trigger] self.is_move(i, j) implies self.has_symbol(
                self.symbol_at(i, j),
            ) by {
                assert(!self.defect(Place::Symbol(i, j)));
            }
            assert forall|i: int, j: int, k: int| #[trigger]
                self.is_edge(i, j, k) implies self.has_state(self.target_at(i, j, k)) by {
                assert(!self.defect(Place::Target(i, j, k)));
            }
        }
    }
}

/// The order in which validation looks at the places: the start state, then
/// the final states as listed, then the symbols of all transitions as
/// listed, then the destinations of all transitions as listed.
pub open spec fn looked_at_before(a: Place, b: Place) -> bool {
    match (a, b) {
        (Place::Start, Place::Start) => false,
        (Place::Start, _) => true,
        (Place::Final(_), Place::Start) => false,
        (Place::Final(f), Place::Final(g)) => f < g,
        (Place::Final(_), _) => true,
        (Place::Symbol(i, j), Place::Symbol(k, l)) => i < k || (i == k && j < l),
        (Place::Symbol(_, _), Place::Target(_, _, _)) => true,
        (Place::Symbol(_, _), _) => false,
        (Place::Target(i, j, k), Place::Target(l, m, n)) => i < l || (i == l && (j < m || (j == m
            && k < n))),
        (Place::Target(_, _, _), _) => false,
    }
}

/// Nondeterministic finite automata.
///
/// The marker `T` tells whether the automaton has been validated. An
/// automaton marked `Sanitary` is well formed.
#[derive(Debug)]
pub struct Nfa<T: Marker> {
    /// Marker to ensure that the state machine has been validated before it
    /// is used for any computations.
    pub(crate) _sanitized: T,
    /// Start state.
    pub(crate) start: String,
    /// The final (accepting) states of the automata.
    pub(crate) final_states: Vec<String>,
    /// The alphabet of symbols the automata accepts.
    pub(crate) alphabet: Vec<String>,
    /// The nodes within the automata. Each node has mappings from alphabet
    /// symbols to sets of other states.
    pub(crate) nodes: Vec<(String, Vec<(String, Vec<String>)>)>,
}

impl<T: Marker> View for Nfa<T> {
    type V = NfaView;

    closed spec fn view(&self) -> NfaView {
        NfaView {
            start: self.start@,
            final_states: self.final_states.deep_view(),
            alphabet: self.alphabet.deep_view(),
            nodes: self.nodes.deep_view(),
        }
    }
}

impl<T: Marker> Nfa<T> {
    /// What holds of every automaton of this type.
    #[verifier::type_invariant]
    pub open spec fn inv(&self) -> bool {
        T::checked() ==> self@.well_formed()
    }

    /// The name of the start state.
    pub fn start(&self) -> (name: &String)
        ensures
            name@ == self@.start,
    {
        &self.start
    }

    /// The names of the final states, as listed.
    pub fn final_states(&self) -> (names: &Vec<String>)
        ensures
            names.deep_view() == self@.final_states,
    {
        &self.final_states
    }

    /// The symbols of the alphabet, as listed.
    pub fn alphabet(&self) -> (symbols: &Vec<String>)
        ensures
            symbols.deep_view() == self@.alphabet,
    {
        &self.alphabet
    }

    /// The states with their transitions, as listed.
    pub fn nodes(&self) -> (nodes: &Vec<(String, Vec<(String, Vec<String>)>)>)
        ensures
            nodes.deep_view() == self@.nodes,
    {
        &self.nodes
    }

    /// Whether `name` is the name of a state.
    pub fn has_state(&self, name: &String) -> (r: bool)
        ensures
            r == self@.has_state(name@),
    {
        let mut i: usize = 0;
        while i < self.nodes.len()
            invariant
                i <= self.nodes.len(),
                forall|e: int| 0 <= e < i ==> (#[trigger] self@.nodes[e]).0 != name@,
            decreases self.nodes.len() - i,
        {
            if self.nodes[i].0 == *name {
                assert(self@.nodes[i as int].0 == name@);
                return true;
            }
            assert(self@.nodes[i as int].0 == self.nodes[i as int].0@);
            i += 1;
        }
        false
    }
}

impl Nfa<Unsanitary> {
    /// An automaton that has not been validated, from its description: the
    /// name of the start state, the names of the final states, the symbols
    /// of the alphabet, and the states, each with its name and its
    /// transitions, each of them with its symbol and its destinations.
    pub fn new(
        start: String,
        final_states: Vec<String>,
        alphabet: Vec<String>,
        nodes: Vec<(String, Vec<(String, Vec<String>)>)>,
    ) -> (nfa: Self)
        ensures
            nfa@ == (NfaView {
                start: start@,
                final_states: final_states.deep_view(),
                alphabet: alphabet.deep_view(),
                nodes: nodes.deep_view(),
            }),
    {
        Nfa { _sanitized: Unsanitary, start, final_states, alphabet, nodes }
    }

    /// Ensures that the NFA is valid, and that relevant invariants within
    /// the structure hold.
    ///
    /// A well-formed automaton comes back unchanged and marked as valid.
    /// Otherwise the error names what is referred to at the first defect:
    /// the start state is looked at first, then the final states, then the
    /// symbols of the transitions, then their destinations.
    pub fn check(self) -> (r: Result<Nfa<Sanitary>, NfaError>)
        ensures
            r is Ok <==> self@.well_formed(),
            r matches Ok(nfa) ==> nfa@ == self@,
            r matches Err(e) ==> exists|place: Place| #[trigger]
                self@.first_defect(place) && e@ == self@.report(place),
    {
        let ghost v = self@;
        proof {
            v.lemma_no_defect();
        }
        // ensure that the start state is a valid state
        if !self.has_state(&self.start) {
            let e = NfaError::UnknownState(self.start.clone());
            proof {
                assert(v.first_defect(Place::Start) && e@ == v.report(Place::Start));
            }
            return Err(e);
        }
        // ensure that all final states are listed as actual states
        let mut f: usize = 0;
        while f < self.final_states.len()
            invariant
                f <= self.final_states.len(),
                v == self@,
                v.has_state(v.start),
                forall|e: int| 0 <= e < f ==> !#[trigger] v.defect(Place::Final(e)),
            decreases self.final_states.len() - f,
        {
            assert(v.final_states[f as int] == self.final_states[f as int]@);
            if !self.has_state(&self.final_states[f]) {
                let e = NfaError::UnknownState(self.final_states[f].clone());
                proof {
                    let place = Place::Final(f as int);
                    assert(v.defect(place));
                    assert forall|other: Place| #[trigger] v.defect(other) implies !looked_at_before(
                        other,
                        place,
                    ) by {
                        if let Place::Final(g) = other {
                            if g < f {
                                assert(!v.defect(Place::Final(g)));
                            }
                        }
                    }
                    assert(v.first_defect(place) && e@ == v.report(place));
                }
                return Err(e);
            }
            f += 1;
        }
        // ensure that all state transitions are on valid symbols
        let mut i: usize = 0;
        while i < self.nodes.len()
            invariant
                i <= self.nodes.len(),
                v == self@,
                v.has_state(v.start),
                forall|e: int| !#[trigger] v.defect(Place::Final(e)),
                forall|a: int, b: int| 0 <= a < i ==> !#[trigger] v.defect(Place::Symbol(a, b)),
            decreases self.nodes.len() - i,
        {
            let mut j: usize = 0;
            assert(v.nodes[i as int].1.len() == self.nodes[i as int].1.len());
            while j < self.nodes[i].1.len()
                invariant
                    i < self.nodes.len(),
                    j <= self.nodes[i as int].1.len(),
                    v == self@,
                    v.nodes[i as int].1.len() == self.nodes[i as int].1.len(),
                    v.has_state(v.start),
                    forall|e: int| !#[trigger] v.defect(Place::Final(e)),
                    forall|a: int, b: int|
                        0 <= a < i ==> !#[trigger] v.defect(Place::Symbol(a, b)),
                    forall|b: int| 0 <= b < j ==> !#[trigger] v.defect(Place::Symbol(i as int, b)),
                decreases self.nodes[i as int].1.len() - j,
            {
                let symbol = &self.nodes[i].1[j].0;
                assert(v.symbol_at(i as int, j as int) == symbol@);
                assert(v.is_move(i as int, j as int));
                let known = position(&self.alphabet, symbol);
                if known.is_none() {
                    let e = NfaError::UnknownSymbol(symbol.clone());
                    proof {
                        let place = Place::Symbol(i as int, j as int);
                        assert(!v.has_symbol(symbol@)) by {
                            if v.alphabet.contains(symbol@) {
                                let k = choose|k: int|
                                    0 <= k < v.alphabet.len() && v.alphabet[k] == symbol@;
                                assert(self.alphabet[k]@ == symbol@);
                            }
                        }
                        assert(v.defect(place));
                        assert forall|other: Place| #[trigger]
                            v.defect(other) implies !looked_at_before(other, place) by {
                            match other {
                                Place::Start => {},
                                Place::Final(g) => {
                                    assert(!v.defect(Place::Final(g)));
                                },
                                Place::Symbol(a, b) => {
                                    if a < i {
                                        assert(!v.defect(Place::Symbol(a, b)));
                                    } else if a == i && b < j {
                                        assert(!v.defect(Place::Symbol(i as int, b)));
                                    }
                                },
                                Place::Target(_, _, _) => {},
                            }
                        }
                        assert(v.first_defect(place) && e@ == v.report(place));
                    }
                    return Err(e);
                }
                proof {
                    let k = known.unwrap();
                    assert(v.alphabet[k as int] == symbol@);
                }
                j += 1;
            }
            i += 1;
        }
        // ensure that all state transitions are to valid states
        let mut i: usize = 0;
        while i < self.nodes.len()
            invariant
                i <= self.nodes.len(),
                v == self@,
                v.has_state(v.start),
                forall|e: int| !#[trigger] v.defect(Place::Final(e)),
                forall|a: int, b: int| !#[trigger] v.defect(Place::Symbol(a, b)),
                forall|a: int, b: int, c: int|
                    0 <= a < i ==> !#[trigger] v.defect(Place::Target(a, b, c)),
            decreases self.nodes.len() - i,
        {
            let mut j: usize = 0;
            assert(v.nodes[i as int].1.len() == self.nodes[i as int].1.len());
            while j < self.nodes[i].1.len()
                invariant
                    i < self.nodes.len(),
                    j <= self.nodes[i as int].1.len(),
                    v == self@,
                    v.nodes[i as int].1.len() == self.nodes[i as int].1.len(),
                    v.has_state(v.start),
                    forall|e: int| !#[trigger] v.defect(Place::Final(e)),
                    forall|a: int, b: int| !#[trigger] v.defect(Place::Symbol(a, b)),
                    forall|a: int, b: int, c: int|
                        0 <= a < i ==> !#[trigger] v.defect(Place::Target(a, b, c)),
                    forall|b: int, c: int|
                        0 <= b < j ==> !#[trigger] v.defect(Place::Target(i as int, b, c)),
                decreases self.nodes[i as int].1.len() - j,
            {
                let mut k: usize = 0;
                assert(v.nodes[i as int].1[j as int].1.len() == self.nodes[i as int].1[j as int].1.len());
                while k < self.nodes[i].1[j].1.len()
                    invariant
                        i < self.nodes.len(),
                        j < self.nodes[i as int].1.len(),
                        k <= self.nodes[i as int].1[j as int].1.len(),
                        v == self@,
                        v.nodes[i as int].1.len() == self.nodes[i as int].1.len(),
                        v.nodes[i as int].1[j as int].1.len() == self.nodes[i as int].1[j as int].1.len(),
                        v.has_state(v.start),
                        forall|e: int| !#[trigger] v.defect(Place::Final(e)),
                        forall|a: int, b: int| !#[trigger] v.defect(Place::Symbol(a, b)),
                        forall|a: int, b: int, c: int|
                            0 <= a < i ==> !#[trigger] v.defect(Place::Target(a, b, c)),
                        forall|b: int, c: int|
                            0 <= b < j ==> !#[trigger] v.defect(Place::Target(i as int, b, c)),
                        forall|c: int|
                            0 <= c < k ==> !#[trigger] v.defect(
                                Place::Target(i as int, j as int, c),
                            ),
                    decreases self.nodes[i as int].1[j as int].1.len() - k,
                {
                    let target = &self.nodes[i].1[j].1[k];
                    assert(v.target_at(i as int, j as int, k as int) == target@);
                    assert(v.is_edge(i as int, j as int, k as int));
                    if !self.has_state(target) {
                        let e = NfaError::UnknownState(target.clone());
                        proof {
                            let place = Place::Target(i as int, j as int, k as int);
                            assert(v.defect(place));
                            assert forall|other: Place| #[trigger]
                                v.defect(other) implies !looked_at_before(other, place) by {
                                match other {
                                    Place::Start => {},
                                    Place::Final(g) => {
                                        assert(!v.defect(Place::Final(g)));
                                    },
                                    Place::Symbol(a, b) => {
                                        assert(!v.defect(Place::Symbol(a, b)));
                                    },
                                    Place::Target(a, b, c) => {
                                        if a < i {
                                            assert(!v.defect(Place::Target(a, b, c)));
                                        } else if a == i && b < j {
                                            assert(!v.defect(Place::Target(i as int, b, c)));
                                        } else if a == i && b == j && c < k {
                                            assert(!v.defect(Place::Target(i as int, j as int, c)));
                                        }
                                    },
                                }
                            }
                            assert(v.first_defect(place) && e@ == v.report(place));
                        }
                        return Err(e);
                    }
                    k += 1;
                }
                j += 1;
            }
            i += 1;
        }
        proof {
            assert forall|place: Place| !#[trigger] v.defect(place) by {
                match place {
                    Place::Start => {},
                    Place::Final(g) => {
                        assert(!v.defect(Place::Final(g)));
                    },
                    Place::Symbol(a, b) => {
                        assert(!v.defect(Place::Symbol(a, b)));
                    },
                    Place::Target(a, b, c) => {
                        assert(!v.defect(Place::Target(a, b, c)));
                    },
                }
            }
        }
        Ok(
            Nfa {
                _sanitized: Sanitary,
                start: self.start,
                final_states: self.final_states,
                alphabet: self.alphabet,
                nodes: self.nodes,
            },
        )
    }
}

} // verus!
