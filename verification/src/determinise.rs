//! The subset construction: from a validated nondeterministic automaton to a
//! deterministic one whose states stand for sets of states of the first.
//!
//! The sets are found from the set that holds the start state alone, by
//! following every symbol from every set found. The empty set is the dead
//! state and gets no state of its own.

use crate::dfa::{rows, Dfa, DfaView};
use crate::distinguish::lemma_distinct_below;
use crate::names::{
    ascending, copy_names, hash_states, lemma_names_single, lists_set, name_le, names_set,
    position, set_separator,
};
use crate::nfa::{Nfa, NfaView, Sanitary};
use crate::numbering::Numbered;
use std::collections::VecDeque;
use vstd::prelude::*;

verus! {

/// The set of states that a state of the deterministic automaton stands
/// for; the dead state stands for the empty set.
pub open spec fn stands_for(sets: Seq<Set<Seq<char>>>, s: Option<usize>) -> Set<Seq<char>> {
    match s {
        Some(j) => sets[j as int],
        None => Set::empty(),
    }
}

impl DfaView {
    /// `self` is the subset construction of `nfa`, and `sets[i]` is the set
    /// of states of `nfa` that the state `i` stands for.
    ///
    /// The start state stands for the start state of `nfa` alone. Every
    /// state stands for a set that is not empty and that some word leads to,
    /// no two states stand for the same set, and a state is final if its set
    /// holds a final state. On every symbol a state goes to the state that
    /// stands for the set of all states that the members of its own set can
    /// go to, and to the dead state if there are none.
    pub open spec fn determinises(self, nfa: NfaView, sets: Seq<Set<Seq<char>>>) -> bool {
        &&& ascending(self.alphabet)
        &&& forall|x: Seq<char>| self.alphabet.contains(x) <==> nfa.has_symbol(x)
        &&& sets.len() == self.len()
        &&& sets[self.start as int] == set![nfa.start]
        &&& forall|i: int|
            0 <= i < self.len() ==> {
                &&& exists|q: Seq<char>| (#[trigger] sets[i]).contains(q)
                &&& exists|w: Seq<Seq<char>>| nfa.reach(w) == sets[i]
                &&& names_set(self.names[i], sets[i], set_separator())
                &&& self.accepting[i] == nfa.meets_final(sets[i])
            }
        &&& forall|i: int, j: int|
            0 <= i < j < self.len() ==> (#[trigger] sets[i]) != (#[trigger] sets[j])
        &&& forall|i: int, a: int|
            0 <= i < self.len() && 0 <= a < self.alphabet.len() ==> stands_for(
                sets,
                #[trigger] self.table[i][a],
            ) == nfa.step(sets[i], self.alphabet[a])
    }

    /// From a state, the subset construction accepts the words that the
    /// nondeterministic automaton accepts from one of the states that the
    /// state stands for.
    pub proof fn lemma_determinised_reads_alike(
        self,
        nfa: NfaView,
        sets: Seq<Set<Seq<char>>>,
        s: Option<usize>,
        w: Seq<Seq<char>>,
    )
        requires
            nfa.well_formed(),
            self.well_formed(),
            self.determinises(nfa, sets),
            self.leads_inside(s),
        ensures
            stands_for(sets, self.run_from(s, w)) == nfa.reach_from(stands_for(sets, s), w),
            self.accepts_from(s, w) == nfa.accepts_from(stands_for(sets, s), w),
        decreases w.len(),
    {
        if w.len() == 0 {
            match s {
                Some(i) => {
                    assert(self.accepting[i as int] == nfa.meets_final(sets[i as int]));
                },
                None => {},
            }
        } else {
            let x = w[0];
            let t = self.step(s, x);
            self.lemma_step_inside(s, x);
            assert(stands_for(sets, t) == nfa.step(stands_for(sets, s), x)) by {
                match s {
                    Some(i) => {
                        if self.alphabet.contains(x) {
                            let a = self.alphabet.index_of(x);
                            self.lemma_step_symbol(i, a);
                        } else {
                            nfa.lemma_step_outside(sets[i as int], x);
                        }
                    },
                    None => {
                        nfa.lemma_step_nowhere(x);
                    },
                }
            }
            self.lemma_determinised_reads_alike(nfa, sets, t, w.drop_first());
        }
    }

    /// The subset construction accepts the words that the nondeterministic
    /// automaton accepts, and every word leads it to the state that stands
    /// for the set of states that the word can lead the other to.
    pub proof fn lemma_determinised_language(self, nfa: NfaView, sets: Seq<Set<Seq<char>>>)
        requires
            nfa.well_formed(),
            self.well_formed(),
            self.determinises(nfa, sets),
        ensures
            forall|w: Seq<Seq<char>>| self.accepts(w) == nfa.accepts(w),
            forall|w: Seq<Seq<char>>| stands_for(sets, #[trigger] self.run(w)) == nfa.reach(w),
    {
        assert forall|w: Seq<Seq<char>>| self.accepts(w) == nfa.accepts(w) by {
            self.lemma_determinised_reads_alike(nfa, sets, Some(self.start), w);
        }
        assert forall|w: Seq<Seq<char>>| stands_for(sets, #[trigger] self.run(w)) == nfa.reach(
            w,
        ) by {
            self.lemma_determinised_reads_alike(nfa, sets, Some(self.start), w);
        }
    }
}

impl NfaView {
    /// On a symbol outside the alphabet a well-formed automaton goes
    /// nowhere.
    pub proof fn lemma_step_outside(self, from: Set<Seq<char>>, x: Seq<char>)
        requires
            self.well_formed(),
            !self.has_symbol(x),
        ensures
            self.step(from, x) == Set::<Seq<char>>::empty(),
    {
        assert forall|t: Seq<char>| !self.step(from, x).contains(t) by {
            if self.step(from, x).contains(t) {
                let q = choose|q: Seq<char>| from.contains(q) && self.moves(q, x, t);
                let (i, j, k) = choose|i: int, j: int, k: int| #[trigger]
                    self.is_edge(i, j, k) && self.nodes[i].0 == q && self.symbol_at(i, j) == x
                        && self.target_at(i, j, k) == t;
                assert(self.is_move(i, j));
            }
        }
        assert(self.step(from, x) =~= Set::<Seq<char>>::empty());
    }

    /// From no state the automaton goes nowhere.
    pub proof fn lemma_step_nowhere(self, x: Seq<char>)
        ensures
            self.step(Set::empty(), x) == Set::<Seq<char>>::empty(),
    {
        assert(self.step(Set::empty(), x) =~= Set::<Seq<char>>::empty());
    }

    /// Reading `w` and then `x` is reading `w` and then stepping on `x`.
    pub proof fn lemma_reach_last(self, from: Set<Seq<char>>, w: Seq<Seq<char>>, x: Seq<char>)
        ensures
            self.reach_from(from, w.push(x)) == self.step(self.reach_from(from, w), x),
        decreases w.len(),
    {
        let wx = w.push(x);
        if w.len() == 0 {
            assert(wx.drop_first() =~= Seq::<Seq<char>>::empty());
            assert(self.reach_from(self.step(from, x), wx.drop_first()) == self.step(from, x));
        } else {
            assert(wx[0] == w[0]);
            assert(wx.drop_first() =~= w.drop_first().push(x));
            self.lemma_reach_last(self.step(from, w[0]), w.drop_first(), x);
        }
    }
}

/// The names of the states that a row of marks holds.
spec fn members(ns: Seq<Seq<char>>, c: Seq<bool>) -> Set<Seq<char>> {
    Set::new(|q: Seq<char>| exists|j: int| 0 <= j < ns.len() && #[trigger] c[j] && ns[j] == q)
}

/// The row of marks holds a state.
spec fn occupied(c: Seq<bool>) -> bool {
    exists|j: int| 0 <= j < c.len() && #[trigger] c[j]
}

/// One of the first `upto` states that `c` holds can go to `q` on the
/// `a`-th symbol.
spec fn next_mark(r: Numbered, c: Seq<bool>, a: int, q: int, upto: int) -> bool {
    exists|p: int| 0 <= p < upto && #[trigger] c[p] && r.delta[p][a][q]
}

/// The states that the states of `c` can go to on the `a`-th symbol.
spec fn next_config(r: Numbered, c: Seq<bool>, a: int) -> Seq<bool> {
    Seq::new(r.size() as nat, |q: int| next_mark(r, c, a, q, r.size()))
}

/// The row of marks that holds the start state alone.
spec fn start_config(r: Numbered) -> Seq<bool> {
    Seq::new(r.size() as nat, |q: int| q == r.start)
}

/// The number that the marks spell in binary.
spec fn code(c: Seq<bool>) -> int
    decreases c.len(),
{
    if c.len() == 0 {
        0
    } else {
        2 * code(c.drop_last()) + if c.last() {
            1int
        } else {
            0int
        }
    }
}

/// Two to the power `n`.
spec fn two_to(n: nat) -> int
    decreases n,
{
    if n == 0 {
        1
    } else {
        2 * two_to((n - 1) as nat)
    }
}

/// The code of a row of `n` marks is below two to the power `n`.
proof fn lemma_code_bound(c: Seq<bool>)
    ensures
        0 <= code(c) < two_to(c.len()),
    decreases c.len(),
{
    if c.len() > 0 {
        lemma_code_bound(c.drop_last());
    }
}

/// Rows of equal length with the same code are the same.
proof fn lemma_code_injective(c: Seq<bool>, d: Seq<bool>)
    requires
        c.len() == d.len(),
        code(c) == code(d),
    ensures
        c == d,
    decreases c.len(),
{
    if c.len() > 0 {
        lemma_code_injective(c.drop_last(), d.drop_last());
        assert(c =~= c.drop_last().push(c.last()));
        assert(d =~= d.drop_last().push(d.last()));
    } else {
        assert(c =~= d);
    }
}

/// Different rows of `n` marks are at most two to the power `n`.
proof fn lemma_configs_bounded(found: Vec<Vec<bool>>, n: nat)
    requires
        forall|i: int| 0 <= i < found.len() ==> (#[trigger] found[i]).len() == n,
        forall|i: int, j: int|
            0 <= i < j < found.len() ==> (#[trigger] found[i])@ != (#[trigger] found[j])@,
    ensures
        found.len() <= two_to(n),
{
    let codes = Seq::new(found.len() as nat, |i: int| code(found[i]@));
    assert forall|i: int| 0 <= i < codes.len() implies 0 <= #[trigger] codes[i] < two_to(n) by {
        lemma_code_bound(found[i]@);
    }
    assert forall|i: int, j: int|
        0 <= i < codes.len() && 0 <= j < codes.len() && i != j implies codes[i] != codes[j] by {
        if codes[i] == codes[j] {
            lemma_code_injective(found[i]@, found[j]@);
            if i < j {
                assert(found[i]@ != found[j]@);
            } else {
                assert(found[j]@ != found[i]@);
            }
        }
    }
    assert(two_to(n) >= 0) by {
        lemma_code_bound(Seq::new(n, |i: int| false));
    }
    lemma_distinct_below(codes, two_to(n));
}

/// Following a symbol from the states of a row leads to the states of the
/// next row.
proof fn lemma_step_config(nfa: NfaView, r: Numbered, c: Seq<bool>, a: int)
    requires
        nfa.well_formed(),
        r.numbers(nfa),
        c.len() == r.size(),
        0 <= a < r.width(),
    ensures
        nfa.step(members(r.names.deep_view(), c), r.symbols[a]@) == members(
            r.names.deep_view(),
            next_config(r, c, a),
        ),
{
    let ns = r.names.deep_view();
    let x = r.symbols[a]@;
    let next = next_config(r, c, a);
    let left = nfa.step(members(ns, c), x);
    let right = members(ns, next);
    assert forall|t: Seq<char>| left.contains(t) implies right.contains(t) by {
        let q = choose|q: Seq<char>| members(ns, c).contains(q) && nfa.moves(q, x, t);
        let p = choose|p: int| 0 <= p < ns.len() && #[trigger] c[p] && ns[p] == q;
        let (i, j, k) = choose|i: int, j: int, k: int| #[trigger]
            nfa.is_edge(i, j, k) && nfa.nodes[i].0 == q && nfa.symbol_at(i, j) == x
                && nfa.target_at(i, j, k) == t;
        assert(nfa.has_state(t));
        assert(ns.contains(t));
        let s = choose|s: int| 0 <= s < ns.len() && ns[s] == t;
        assert(r.delta[p][a][s] == nfa.moves(r.names[p]@, r.symbols[a]@, r.names[s]@));
        assert(next_mark(r, c, a, s, r.size()));
        assert(next[s]);
    }
    assert forall|t: Seq<char>| right.contains(t) implies left.contains(t) by {
        let s = choose|s: int| 0 <= s < ns.len() && #[trigger] next[s] && ns[s] == t;
        assert(next_mark(r, c, a, s, r.size()));
        let p = choose|p: int| 0 <= p < r.size() && #[trigger] c[p] && r.delta[p][a][s];
        assert(r.delta[p][a][s] == nfa.moves(r.names[p]@, r.symbols[a]@, r.names[s]@));
        assert(members(ns, c).contains(ns[p]));
    }
    assert(left =~= right);
}

/// Rows of marks that differ hold different states.
proof fn lemma_members_differ(ns: Seq<Seq<char>>, c: Seq<bool>, d: Seq<bool>)
    requires
        ns.no_duplicates(),
        c.len() == ns.len(),
        d.len() == ns.len(),
        c != d,
    ensures
        members(ns, c) != members(ns, d),
{
    if forall|j: int| 0 <= j < ns.len() ==> c[j] == d[j] {
        assert(c =~= d);
    }
    let j = choose|j: int| 0 <= j < ns.len() && c[j] != d[j];
    if c[j] {
        assert(members(ns, c).contains(ns[j]));
        if members(ns, d).contains(ns[j]) {
            let e = choose|e: int| 0 <= e < ns.len() && #[trigger] d[e] && ns[e] == ns[j];
        }
    } else {
        assert(members(ns, d).contains(ns[j]));
        if members(ns, c).contains(ns[j]) {
            let e = choose|e: int| 0 <= e < ns.len() && #[trigger] c[e] && ns[e] == ns[j];
        }
    }
}

/// Where the `a`-th symbol leads from the `i`-th set found: to the set at
/// `t`, or nowhere.
spec fn leads(r: Numbered, found: Vec<Vec<bool>>, i: int, a: int, t: Option<usize>) -> bool {
    match t {
        Some(j) => j < found.len() && found[j as int]@ == next_config(r, found[i]@, a),
        None => !occupied(next_config(r, found[i]@, a)),
    }
}

/// What holds of the sets found while the first `done` of them have been
/// followed on every symbol. `words[i]` is a word that leads to the `i`-th
/// set.
spec fn explored(
    nfa: NfaView,
    r: Numbered,
    found: Vec<Vec<bool>>,
    table: Vec<Vec<Option<usize>>>,
    words: Seq<Seq<Seq<char>>>,
    done: int,
) -> bool {
    &&& 1 <= found.len()
    &&& words.len() == found.len()
    &&& 0 <= done <= found.len()
    &&& table.len() == done
    &&& found[0]@ == start_config(r)
    &&& forall|i: int|
        0 <= i < found.len() ==> {
            &&& (#[trigger] found[i]).len() == r.size()
            &&& occupied(found[i]@)
            &&& nfa.reach(words[i]) == members(r.names.deep_view(), found[i]@)
        }
    &&& forall|i: int, j: int|
        0 <= i < j < found.len() ==> (#[trigger] found[i])@ != (#[trigger] found[j])@
    &&& forall|i: int| 0 <= i < done ==> (#[trigger] table[i]).len() == r.width()
    &&& forall|i: int, a: int|
        0 <= i < done && 0 <= a < r.width() ==> leads(r, found, i, a, #[trigger] table[i][a])
}

/// The sets that wait to be followed are those found after the first
/// `done`, in the order in which they were found.
spec fn waiting(work: Seq<usize>, done: int, found: int) -> bool {
    &&& 0 <= done <= found
    &&& work.len() == found - done
    &&& forall|k: int| 0 <= k < work.len() ==> #[trigger] work[k] == done + k
}

/// A new set joins the sets found.
proof fn lemma_explored_more(
    nfa: NfaView,
    r: Numbered,
    found: Vec<Vec<bool>>,
    more: Vec<Vec<bool>>,
    table: Vec<Vec<Option<usize>>>,
    words: Seq<Seq<Seq<char>>>,
    done: int,
    c: Vec<bool>,
    w: Seq<Seq<char>>,
)
    requires
        explored(nfa, r, found, table, words, done),
        more@ == found@.push(c),
        c.len() == r.size(),
        occupied(c@),
        nfa.reach(w) == members(r.names.deep_view(), c@),
        forall|i: int| 0 <= i < found.len() ==> (#[trigger] found[i])@ != c@,
    ensures
        explored(nfa, r, more, table, words.push(w), done),
{
    let words1 = words.push(w);
    assert forall|i: int| 0 <= i < more.len() implies (#[trigger] more[i]).len() == r.size()
        && occupied(more[i]@) && nfa.reach(words1[i]) == members(
        r.names.deep_view(),
        more[i]@,
    ) by {
        if i < found.len() {
            assert(more[i] == found[i]);
            assert(words1[i] == words[i]);
        }
    }
    assert forall|i: int, j: int| 0 <= i < j < more.len() implies (#[trigger] more[i])@ != (
    #[trigger] more[j])@ by {
        assert(more[i] == found[i]);
        if j < found.len() {
            assert(more[j] == found[j]);
        }
    }
    assert forall|i: int, a: int| 0 <= i < done && 0 <= a < r.width() implies leads(
        r,
        more,
        i,
        a,
        #[trigger] table[i][a],
    ) by {
        assert(leads(r, found, i, a, table[i][a]));
        assert(more[i] == found[i]);
        if let Some(j) = table[i][a] {
            assert(more[j as int] == found[j as int]);
        }
    }
    assert(more[0] == found[0]);
}

/// What holds of the members of a set gathered from the first `k` states;
/// `places[e]` is the number of member `e`.
spec fn gathered(
    ns: Seq<Seq<char>>,
    c: Seq<bool>,
    listing: Seq<Seq<char>>,
    places: Seq<int>,
    k: int,
) -> bool {
    &&& places.len() == listing.len()
    &&& forall|e: int|
        0 <= e < listing.len() ==> {
            &&& 0 <= (#[trigger] places[e]) < k
            &&& c[places[e]]
            &&& ns[places[e]] == listing[e]
        }
    &&& forall|e1: int, e2: int|
        0 <= e1 < e2 < places.len() ==> (#[trigger] places[e1]) < (#[trigger] places[e2])
    &&& forall|j: int| 0 <= j < k && #[trigger] c[j] ==> listing.contains(ns[j])
}

/// The members gathered from all states list the set.
proof fn lemma_gathered_lists(
    ns: Seq<Seq<char>>,
    c: Seq<bool>,
    listing: Seq<Seq<char>>,
    places: Seq<int>,
)
    requires
        ascending(ns),
        ns.no_duplicates(),
        c.len() == ns.len(),
        gathered(ns, c, listing, places, ns.len() as int),
    ensures
        lists_set(listing, members(ns, c)),
{
    assert forall|e1: int, e2: int| 0 <= e1 <= e2 < listing.len() implies name_le(
        listing[e1],
        listing[e2],
    ) by {
        if e1 < e2 {
            assert(places[e1] < places[e2]);
        }
        assert(listing[e1] == ns[places[e1]] && listing[e2] == ns[places[e2]]);
    }
    assert forall|e1: int, e2: int|
        0 <= e1 < listing.len() && 0 <= e2 < listing.len() && e1 != e2 implies listing[e1]
        != listing[e2] by {
        if e1 < e2 {
            assert(places[e1] < places[e2]);
        } else {
            assert(places[e2] < places[e1]);
        }
        assert(listing[e1] == ns[places[e1]] && listing[e2] == ns[places[e2]]);
    }
    assert forall|q: Seq<char>| listing.contains(q) <==> members(ns, c).contains(q) by {
        if listing.contains(q) {
            let e = choose|e: int| 0 <= e < listing.len() && listing[e] == q;
            assert(c[places[e]] && ns[places[e]] == q);
        }
        if members(ns, c).contains(q) {
            let j = choose|j: int| 0 <= j < ns.len() && #[trigger] c[j] && ns[j] == q;
            assert(listing.contains(ns[j]));
        }
    }
}

impl Numbered {
    /// The states that the states of `c` can go to on the `a`-th symbol.
    fn advance(&self, c: &Vec<bool>, a: usize) -> (next: Vec<bool>)
        requires
            self.cubic(),
            c.len() == self.size(),
            a < self.width(),
        ensures
            next@ == next_config(*self, c@, a as int),
    {
        let n = self.names.len();
        let mut next: Vec<bool> = Vec::new();
        let mut q: usize = 0;
        while q < n
            invariant
                q <= n,
                next.len() == q,
                forall|e: int| 0 <= e < q ==> !(#[trigger] next[e]),
            decreases n - q,
        {
            next.push(false);
            q += 1;
        }
        let mut p: usize = 0;
        while p < n
            invariant
                p <= n,
                n == self.size(),
                self.cubic(),
                c.len() == n,
                a < self.width(),
                next.len() == n,
                forall|e: int|
                    0 <= e < n ==> (#[trigger] next[e]) == next_mark(*self, c@, a as int, e, p as int),
            decreases n - p,
        {
            if c[p] {
                let mut q: usize = 0;
                while q < n
                    invariant
                        q <= n,
                        p < n,
                        n == self.size(),
                        self.cubic(),
                        c.len() == n,
                        c[p as int],
                        a < self.width(),
                        next.len() == n,
                        forall|e: int|
                            0 <= e < q ==> (#[trigger] next[e]) == next_mark(
                                *self,
                                c@,
                                a as int,
                                e,
                                p + 1,
                            ),
                        forall|e: int|
                            q <= e < n ==> (#[trigger] next[e]) == next_mark(
                                *self,
                                c@,
                                a as int,
                                e,
                                p as int,
                            ),
                    decreases n - q,
                {
                    assert(self.delta[p as int].len() == self.width());
                    assert(self.delta[p as int][a as int].len() == self.size());
                    let ghost was = next[q as int];
                    if self.delta[p][a][q] {
                        next.set(q, true);
                    }
                    proof {
                        let now = was || self.delta[p as int][a as int][q as int];
                        if next_mark(*self, c@, a as int, q as int, p + 1) {
                            let s = choose|s: int|
                                0 <= s < p + 1 && #[trigger] c@[s] && self.delta[s][a as int][q as int];
                            if s < p {
                                assert(next_mark(*self, c@, a as int, q as int, p as int));
                            }
                        }
                        if now {
                            if was {
                                let s = choose|s: int|
                                    0 <= s < p && #[trigger] c@[s] && self.delta[s][a as int][q as int];
                                assert(0 <= s < p + 1 && c@[s]);
                            } else {
                                assert(c@[p as int]);
                            }
                        }
                    }
                    q += 1;
                }
            } else {
                proof {
                    assert forall|e: int| 0 <= e < n implies next_mark(
                        *self,
                        c@,
                        a as int,
                        e,
                        p as int,
                    ) == next_mark(*self, c@, a as int, e, p + 1) by {
                        if next_mark(*self, c@, a as int, e, p + 1) {
                            let s = choose|s: int|
                                0 <= s < p + 1 && #[trigger] c@[s] && self.delta[s][a as int][e];
                            assert(0 <= s < p);
                        }
                        if next_mark(*self, c@, a as int, e, p as int) {
                            let s = choose|s: int|
                                0 <= s < p && #[trigger] c@[s] && self.delta[s][a as int][e];
                            assert(0 <= s < p + 1);
                        }
                    }
                }
            }
            p += 1;
        }
        assert(next@ =~= next_config(*self, c@, a as int));
        next
    }

    /// The row of marks that holds the start state alone.
    fn start_row(&self) -> (c: Vec<bool>)
        requires
            self.start < self.size(),
        ensures
            c@ == start_config(*self),
            occupied(c@),
    {
        let n = self.names.len();
        let mut c: Vec<bool> = Vec::new();
        let mut q: usize = 0;
        while q < n
            invariant
                q <= n,
                c.len() == q,
                forall|e: int| 0 <= e < q ==> (#[trigger] c[e]) == (e == self.start),
            decreases n - q,
        {
            c.push(q == self.start);
            q += 1;
        }
        assert(c@ =~= start_config(*self));
        assert(c@[self.start as int]);
        c
    }

    /// The row of marks that holds no state.
    fn empty_row(&self) -> (c: Vec<bool>)
        ensures
            c.len() == self.size(),
            !occupied(c@),
    {
        let n = self.names.len();
        let mut c: Vec<bool> = Vec::new();
        let mut q: usize = 0;
        while q < n
            invariant
                q <= n,
                c.len() == q,
                forall|e: int| 0 <= e < q ==> !(#[trigger] c@[e]),
            decreases n - q,
        {
            c.push(false);
            q += 1;
        }
        c
    }

    /// Whether one of the states that `c` holds is final.
    fn holds_final(&self, c: &Vec<bool>, Ghost(nfa): Ghost<NfaView>) -> (r: bool)
        requires
            self.numbers(nfa),
            c.len() == self.size(),
        ensures
            r == nfa.meets_final(members(self.names.deep_view(), c@)),
    {
        let n = self.names.len();
        let ghost ns = self.names.deep_view();
        let ghost set = members(ns, c@);
        let mut k: usize = 0;
        while k < n
            invariant
                k <= n,
                n == self.size(),
                ns == self.names.deep_view(),
                set == members(ns, c@),
                self.numbers(nfa),
                c.len() == n,
                forall|j: int| 0 <= j < k ==> !(#[trigger] c@[j] && self.finals[j]),
            decreases n - k,
        {
            if c[k] && self.finals[k] {
                proof {
                    assert(set.contains(ns[k as int]) && nfa.is_final(ns[k as int]));
                }
                return true;
            }
            k += 1;
        }
        proof {
            if nfa.meets_final(set) {
                let q = choose|q: Seq<char>| set.contains(q) && nfa.is_final(q);
                let j = choose|j: int| 0 <= j < ns.len() && #[trigger] c@[j] && ns[j] == q;
                assert(self.finals[j] == nfa.is_final(self.names[j]@));
            }
        }
        false
    }

    /// The name of the set of states that `c` holds.
    fn set_name(&self, c: &Vec<bool>) -> (name: String)
        requires
            ascending(self.names.deep_view()),
            self.names.deep_view().no_duplicates(),
            c.len() == self.size(),
        ensures
            names_set(name@, members(self.names.deep_view(), c@), set_separator()),
    {
        let n = self.names.len();
        let ghost ns = self.names.deep_view();
        let mut listed: Vec<String> = Vec::new();
        let ghost mut places: Seq<int> = Seq::empty();
        let mut k: usize = 0;
        while k < n
            invariant
                k <= n,
                n == self.size(),
                ns == self.names.deep_view(),
                c.len() == n,
                gathered(ns, c@, listed.deep_view(), places, k as int),
            decreases n - k,
        {
            if c[k] {
                let ghost listing0 = listed.deep_view();
                let ghost places0 = places;
                listed.push(self.names[k].clone());
                proof {
                    places = places.push(k as int);
                    let listing = listed.deep_view();
                    assert(listing =~= listing0.push(ns[k as int]));
                    assert forall|e: int| 0 <= e < listing.len() implies 0 <= (#[trigger] places[e])
                        < k + 1 && c@[places[e]] && ns[places[e]] == listing[e] by {
                        if e < listing0.len() {
                            assert(places[e] == places0[e]);
                        }
                    }
                    assert forall|e1: int, e2: int| 0 <= e1 < e2 < places.len() implies (
                    #[trigger] places[e1]) < (#[trigger] places[e2]) by {
                        assert(places[e1] == places0[e1]);
                        if e2 < places0.len() {
                            assert(places[e2] == places0[e2]);
                        }
                    }
                    assert forall|j: int| 0 <= j < k + 1 && #[trigger] c@[j] implies listing.contains(
                        ns[j],
                    ) by {
                        if j < k {
                            assert(listing0.contains(ns[j]));
                            let e = choose|e: int| 0 <= e < listing0.len() && listing0[e] == ns[j];
                            assert(listing[e] == ns[j]);
                        } else {
                            assert(listing[listing0.len() as int] == ns[j]);
                        }
                    }
                }
            }
            k += 1;
        }
        proof {
            lemma_gathered_lists(ns, c@, listed.deep_view(), places);
            assert(listed.deep_view().to_set() =~= members(ns, c@));
        }
        hash_states(&listed)
    }

    /// The sets of states that can be reached from the start state, and
    /// where every symbol leads from each of them.
    fn explore(&self, Ghost(nfa): Ghost<NfaView>) -> (res: (
        Vec<Vec<bool>>,
        Vec<Vec<Option<usize>>>,
        Ghost<Seq<Seq<Seq<char>>>>,
    ))
        requires
            nfa.well_formed(),
            self.numbers(nfa),
        ensures
            explored(nfa, *self, res.0, res.1, res.2@, res.0.len() as int),
    {
        let n = self.names.len();
        let m = self.symbols.len();
        let ghost ns = self.names.deep_view();
        let first = self.start_row();
        let mut found: Vec<Vec<bool>> = Vec::new();
        found.push(first);
        let mut table: Vec<Vec<Option<usize>>> = Vec::new();
        let ghost mut words: Seq<Seq<Seq<char>>> = seq![Seq::empty()];
        proof {
            assert(nfa.reach(words[0]) =~= members(ns, found[0]@)) by {
                assert(found[0]@[self.start as int]);
                assert(ns[self.start as int] == nfa.start);
            }
        }
        let mut work: VecDeque<usize> = VecDeque::new();
        work.push_back(0);
        while work.len() > 0
            invariant
                n == self.size(),
                m == self.width(),
                ns == self.names.deep_view(),
                nfa.well_formed(),
                self.numbers(nfa),
                explored(nfa, *self, found, table, words, table.len() as int),
                waiting(work@, table.len() as int, found.len() as int),
            decreases two_to(n as nat) - found.len(), work.len(),
        {
            proof {
                lemma_configs_bounded(found, n as nat);
            }
            let ghost work0 = work@;
            let done = work.pop_front().unwrap();
            assert(done == work0[0]);
            assert(work@ =~= work0.skip(1));
            let ghost len_before = found.len();
            let mut row: Vec<Option<usize>> = Vec::new();
            let mut a: usize = 0;
            while a < m
                invariant
                    a <= m,
                    done < found.len(),
                    len_before <= found.len(),
                    n == self.size(),
                    m == self.width(),
                    ns == self.names.deep_view(),
                    nfa.well_formed(),
                    self.numbers(nfa),
                    explored(nfa, *self, found, table, words, done as int),
                    done == table.len(),
                    waiting(work@, done + 1, found.len() as int),
                    row.len() == a,
                    forall|b: int|
                        0 <= b < a ==> leads(*self, found, done as int, b, #[trigger] row[b]),
                decreases m - a,
            {
                assert(found[done as int].len() == n);
                let next = self.advance(&found[done], a);
                let ghost x = self.symbols[a as int]@;
                proof {
                    lemma_step_config(nfa, *self, found[done as int]@, a as int);
                    nfa.lemma_reach_last(set![nfa.start], words[done as int], x);
                }
                if !holds_any(&next) {
                    row.push(None);
                } else {
                    match find(&found, &next) {
                        Some(j) => {
                            row.push(Some(j));
                        },
                        None => {
                            let ghost before = found;
                            let ghost row0 = row;
                            let j = found.len();
                            found.push(next);
                            work.push_back(j);
                            row.push(Some(j));
                            proof {
                                let w = words[done as int].push(x);
                                lemma_explored_more(
                                    nfa,
                                    *self,
                                    before,
                                    found,
                                    table,
                                    words,
                                    done as int,
                                    next,
                                    w,
                                );
                                words = words.push(w);
                                assert forall|b: int| 0 <= b < a + 1 implies leads(
                                    *self,
                                    found,
                                    done as int,
                                    b,
                                    #[trigger] row[b],
                                ) by {
                                    assert(found[done as int] == before[done as int]);
                                    if b < a {
                                        assert(row[b] == row0[b]);
                                        assert(leads(*self, before, done as int, b, row0[b]));
                                        if let Some(t) = row0[b] {
                                            assert(found[t as int] == before[t as int]);
                                        }
                                    }
                                }
                            }
                        },
                    }
                }
                a += 1;
            }
            let ghost table0 = table;
            table.push(row);
            proof {
                assert forall|i: int, b: int| 0 <= i < done + 1 && 0 <= b < self.width() implies leads(
                    *self,
                    found,
                    i,
                    b,
                    #[trigger] table[i][b],
                ) by {
                    if i < done {
                        assert(table[i] == table0[i]);
                    }
                }
                lemma_configs_bounded(found, n as nat);
            }
        }
        (found, table, Ghost(words))
    }
}

/// Whether the row of marks holds a state.
fn holds_any(c: &Vec<bool>) -> (r: bool)
    ensures
        r == occupied(c@),
{
    let mut j: usize = 0;
    while j < c.len()
        invariant
            j <= c.len(),
            forall|e: int| 0 <= e < j ==> !(#[trigger] c@[e]),
        decreases c.len() - j,
    {
        if c[j] {
            return true;
        }
        j += 1;
    }
    false
}

/// Whether two rows of marks are the same.
fn same_row(c: &Vec<bool>, d: &Vec<bool>) -> (r: bool)
    ensures
        r == (c@ == d@),
{
    if c.len() != d.len() {
        return false;
    }
    let mut j: usize = 0;
    while j < c.len()
        invariant
            j <= c.len(),
            c.len() == d.len(),
            forall|e: int| 0 <= e < j ==> c@[e] == d@[e],
        decreases c.len() - j,
    {
        if c[j] != d[j] {
            return false;
        }
        j += 1;
    }
    assert(c@ =~= d@);
    true
}

/// The place of the row `c` among the rows found, if it is among them.
fn find(found: &Vec<Vec<bool>>, c: &Vec<bool>) -> (r: Option<usize>)
    ensures
        match r {
            Some(j) => j < found.len() && found[j as int]@ == c@,
            None => forall|i: int| 0 <= i < found.len() ==> (#[trigger] found[i])@ != c@,
        },
{
    let mut i: usize = 0;
    while i < found.len()
        invariant
            i <= found.len(),
            forall|e: int| 0 <= e < i ==> (#[trigger] found[e])@ != c@,
        decreases found.len() - i,
    {
        if same_row(&found[i], c) {
            return Some(i);
        }
        i += 1;
    }
    None
}

impl Nfa<Sanitary> {
    /// Whether the automaton accepts the word.
    pub fn accepts(&self, word: &Vec<String>) -> (r: bool)
        ensures
            r == self@.accepts(word.deep_view()),
    {
        let ghost nfa = self@;
        let r = self.numbered();
        let ghost ns = r.names.deep_view();
        let ghost w = word.deep_view();
        let mut c = r.start_row();
        proof {
            assert(w.take(0) =~= Seq::<Seq<char>>::empty());
            assert(members(ns, c@) =~= set![nfa.start]) by {
                assert(c@[r.start as int]);
                assert(ns[r.start as int] == nfa.start);
            }
        }
        let mut k: usize = 0;
        while k < word.len()
            invariant
                k <= word.len(),
                w == word.deep_view(),
                nfa.well_formed(),
                r.numbers(nfa),
                ns == r.names.deep_view(),
                c.len() == r.size(),
                members(ns, c@) == nfa.reach(w.take(k as int)),
            decreases word.len() - k,
        {
            let ghost x = w[k as int];
            proof {
                assert(x == word[k as int]@);
                assert(w.take(k + 1) =~= w.take(k as int).push(x));
                nfa.lemma_reach_last(set![nfa.start], w.take(k as int), x);
            }
            match position(&r.symbols, &word[k]) {
                Some(a) => {
                    proof {
                        lemma_step_config(nfa, r, c@, a as int);
                    }
                    c = r.advance(&c, a);
                },
                None => {
                    proof {
                        let xs = r.symbols.deep_view();
                        if xs.contains(x) {
                            let e = choose|e: int| 0 <= e < xs.len() && xs[e] == x;
                            assert(r.symbols[e]@ == x);
                        }
                        nfa.lemma_step_outside(members(ns, c@), x);
                    }
                    c = r.empty_row();
                    assert(members(ns, c@) =~= Set::<Seq<char>>::empty());
                },
            }
            k += 1;
        }
        assert(w.take(k as int) =~= w);
        r.holds_final(&c, Ghost(nfa))
    }

    /// The deterministic automaton that accepts the words that this
    /// automaton accepts, built by the subset construction.
    ///
    /// Its states stand for the sets of states that words lead to, the
    /// empty set excepted. A state is named by the names of the members of
    /// its set in ascending order, joined by the set separator.
    pub fn make_deterministic(self) -> (dfa: Dfa)
        ensures
            dfa@.well_formed(),
            exists|sets: Seq<Set<Seq<char>>>| #[trigger] dfa@.determinises(self@, sets),
            forall|w: Seq<Seq<char>>| dfa@.accepts(w) == self@.accepts(w),
            dfa@.names[dfa@.start as int] == self@.start,
    {
        let ghost nfa = self@;
        let r = self.numbered();
        let ghost ns = r.names.deep_view();
        let (found, table, Ghost(words)) = r.explore(Ghost(nfa));
        let mut names: Vec<String> = Vec::new();
        let mut accepting: Vec<bool> = Vec::new();
        let mut i: usize = 0;
        while i < found.len()
            invariant
                i <= found.len(),
                r.numbers(nfa),
                ns == r.names.deep_view(),
                explored(nfa, r, found, table, words, found.len() as int),
                names.len() == i,
                accepting.len() == i,
                forall|e: int|
                    0 <= e < i ==> names_set(
                        (#[trigger] names[e])@,
                        members(ns, found[e]@),
                        set_separator(),
                    ),
                forall|e: int|
                    0 <= e < i ==> (#[trigger] accepting[e]) == nfa.meets_final(
                        members(ns, found[e]@),
                    ),
            decreases found.len() - i,
        {
            assert(found[i as int].len() == r.size());
            names.push(r.set_name(&found[i]));
            accepting.push(r.holds_final(&found[i], Ghost(nfa)));
            i += 1;
        }
        let alphabet = copy_names(&r.symbols);
        let ghost view = DfaView {
            alphabet: alphabet.deep_view(),
            names: names.deep_view(),
            start: 0,
            accepting: accepting@,
            table: rows(table),
        };
        let ghost sets = Seq::new(found.len() as nat, |i: int| members(ns, found[i]@));
        proof {
            assert(view.well_formed()) by {
                assert forall|e: int| 0 <= e < view.table.len() implies (#[trigger] view.table[e]).len()
                    == view.alphabet.len() by {
                    assert(table[e].len() == r.width());
                }
                assert forall|e: int, a: int|
                    0 <= e < view.table.len() && 0 <= a < view.alphabet.len()
                        implies view.leads_inside(#[trigger] view.table[e][a]) by {
                    assert(leads(r, found, e, a, table[e][a]));
                }
            }
            assert(view.determinises(nfa, sets)) by {
                assert(sets[0] =~= set![nfa.start]) by {
                    assert(found[0]@[r.start as int]);
                    assert(ns[r.start as int] == nfa.start);
                }
                assert forall|e: int| 0 <= e < view.len() implies (exists|q: Seq<char>|
                    (#[trigger] sets[e]).contains(q)) && (exists|w: Seq<Seq<char>>|
                    nfa.reach(w) == sets[e]) && names_set(view.names[e], sets[e], set_separator())
                    && view.accepting[e] == nfa.meets_final(sets[e]) by {
                    assert(occupied(found[e]@));
                    let j = choose|j: int| 0 <= j < found[e]@.len() && #[trigger] found[e]@[j];
                    assert(sets[e].contains(ns[j]));
                    assert(nfa.reach(words[e]) == sets[e]);
                    assert(view.names[e] == names[e]@);
                }
                assert forall|e1: int, e2: int| 0 <= e1 < e2 < view.len() implies (
                #[trigger] sets[e1]) != (#[trigger] sets[e2]) by {
                    assert(found[e1]@ != found[e2]@);
                    lemma_members_differ(ns, found[e1]@, found[e2]@);
                }
                assert forall|e: int, a: int|
                    0 <= e < view.len() && 0 <= a < view.alphabet.len() implies stands_for(
                    sets,
                    #[trigger] view.table[e][a],
                ) == nfa.step(sets[e], view.alphabet[a]) by {
                    assert(leads(r, found, e, a, table[e][a]));
                    lemma_step_config(nfa, r, found[e]@, a as int);
                    assert(view.alphabet[a] == r.symbols[a]@);
                    match table[e][a] {
                        Some(j) => {},
                        None => {
                            let next = next_config(r, found[e]@, a);
                            assert(members(ns, next) =~= Set::<Seq<char>>::empty());
                        },
                    }
                }
            }
            view.lemma_determinised_language(nfa, sets);
            lemma_names_single(view.names[0], nfa.start, set_separator());
        }
        Dfa::assemble(alphabet, names, 0, accepting, table)
    }
}

} // verus!
