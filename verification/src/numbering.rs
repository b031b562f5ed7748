//! A validated automaton with its states and symbols numbered.
//!
//! The states are numbered in ascending order of their names, the symbols in
//! ascending order too. The transitions become a table of marks: whether a
//! state can go to another on a symbol.

use crate::names::{ascending, copy_names, listed_once, position};
use crate::nfa::{Nfa, NfaView, Sanitary};
use vstd::prelude::*;

verus! {

/// The states and symbols of an automaton by numbers.
pub struct Numbered {
    pub names: Vec<String>,
    pub symbols: Vec<String>,
    pub start: usize,
    pub finals: Vec<bool>,
    pub delta: Vec<Vec<Vec<bool>>>,
}

/// `listing` holds every name for which `member` holds, once, in ascending
/// order.
pub open spec fn lists_all(listing: Seq<Seq<char>>, member: spec_fn(Seq<char>) -> bool) -> bool {
    &&& ascending(listing)
    &&& listing.no_duplicates()
    &&& forall|q: Seq<char>| listing.contains(q) <==> member(q)
}

impl Numbered {
    /// The number of states.
    pub open spec fn size(self) -> int {
        self.names.len() as int
    }

    /// The number of symbols.
    pub open spec fn width(self) -> int {
        self.symbols.len() as int
    }

    /// The table of marks has an entry for every state, symbol and state.
    pub open spec fn cubic(self) -> bool {
        &&& self.delta.len() == self.size()
        &&& forall|p: int| 0 <= p < self.size() ==> (#[trigger] self.delta[p]).len() == self.width()
        &&& forall|p: int, a: int|
            0 <= p < self.size() && 0 <= a < self.width() ==> (#[trigger] self.delta[p][a]).len()
                == self.size()
    }

    /// The numbered automaton is the automaton `nfa`.
    pub open spec fn numbers(self, nfa: NfaView) -> bool {
        &&& lists_all(self.names.deep_view(), |q: Seq<char>| nfa.has_state(q))
        &&& lists_all(self.symbols.deep_view(), |x: Seq<char>| nfa.has_symbol(x))
        &&& self.start < self.size()
        &&& self.names[self.start as int]@ == nfa.start
        &&& self.finals.len() == self.size()
        &&& forall|q: int|
            0 <= q < self.size() ==> (#[trigger] self.finals[q]) == nfa.is_final(self.names[q]@)
        &&& self.cubic()
        &&& forall|p: int, a: int, q: int|
            0 <= p < self.size() && 0 <= a < self.width() && 0 <= q < self.size() ==> (
            #[trigger] self.delta[p][a][q]) == nfa.moves(
                self.names[p]@,
                self.symbols[a]@,
                self.names[q]@,
            )
    }
}

/// The place at which `key` stands in `names`.
fn place(names: &Vec<String>, key: &String) -> (i: usize)
    requires
        names.deep_view().contains(key@),
    ensures
        i < names.len(),
        names[i as int]@ == key@,
{
    match position(names, key) {
        Some(i) => i,
        None => {
            proof {
                let ns = names.deep_view();
                let e = choose|e: int| 0 <= e < ns.len() && ns[e] == key@;
                assert(names[e]@ == key@);
            }
            unreached()
        },
    }
}

/// What holds of the table of marks while the transitions are entered: an
/// entry is marked exactly if one of the transitions listed before the
/// place `(i, j, k)` says so.
spec fn entered(
    nfa: NfaView,
    names: Seq<Seq<char>>,
    symbols: Seq<Seq<char>>,
    delta: Vec<Vec<Vec<bool>>>,
    i: int,
    j: int,
    k: int,
) -> bool {
    &&& delta.len() == names.len()
    &&& forall|p: int| 0 <= p < names.len() ==> (#[trigger] delta[p]).len() == symbols.len()
    &&& forall|p: int, a: int|
        0 <= p < names.len() && 0 <= a < symbols.len() ==> (#[trigger] delta[p][a]).len()
            == names.len()
    &&& forall|p: int, a: int, q: int|
        0 <= p < names.len() && 0 <= a < symbols.len() && 0 <= q < names.len() ==> (
        #[trigger] delta[p][a][q]) == moves_before(nfa, names[p], symbols[a], names[q], i, j, k)
}

/// The place `(a, b, c)` comes before the place `(i, j, k)`.
spec fn place_before(a: int, b: int, c: int, i: int, j: int, k: int) -> bool {
    a < i || (a == i && (b < j || (b == j && c < k)))
}

/// One of the transitions listed before the place `(i, j, k)` lets `q` go
/// to `t` on `x`.
spec fn moves_before(
    nfa: NfaView,
    q: Seq<char>,
    x: Seq<char>,
    t: Seq<char>,
    i: int,
    j: int,
    k: int,
) -> bool {
    exists|a: int, b: int, c: int| #[trigger]
        nfa.is_edge(a, b, c) && place_before(a, b, c, i, j, k) && nfa.nodes[a].0 == q
            && nfa.symbol_at(a, b) == x && nfa.target_at(a, b, c) == t
}

/// Places that have the same places before them have the same moves before
/// them.
proof fn lemma_same_places(
    nfa: NfaView,
    names: Seq<Seq<char>>,
    symbols: Seq<Seq<char>>,
    delta: Vec<Vec<Vec<bool>>>,
    i: int,
    j: int,
    k: int,
    i2: int,
    j2: int,
    k2: int,
)
    requires
        entered(nfa, names, symbols, delta, i, j, k),
        forall|a: int, b: int, c: int| #[trigger]
            nfa.is_edge(a, b, c) ==> (place_before(a, b, c, i, j, k) <==> place_before(
                a,
                b,
                c,
                i2,
                j2,
                k2,
            )),
    ensures
        entered(nfa, names, symbols, delta, i2, j2, k2),
{
    assert forall|p: int, a: int, q: int|
        0 <= p < names.len() && 0 <= a < symbols.len() && 0 <= q < names.len() implies (
    #[trigger] delta[p][a][q]) == moves_before(nfa, names[p], symbols[a], names[q], i2, j2, k2) by {
        let (n, x, t) = (names[p], symbols[a], names[q]);
        if moves_before(nfa, n, x, t, i, j, k) {
            let (a1, b1, c1) = choose|a: int, b: int, c: int| #[trigger]
                nfa.is_edge(a, b, c) && place_before(a, b, c, i, j, k) && nfa.nodes[a].0 == n
                    && nfa.symbol_at(a, b) == x && nfa.target_at(a, b, c) == t;
            assert(nfa.is_edge(a1, b1, c1) && place_before(a1, b1, c1, i2, j2, k2));
        }
        if moves_before(nfa, n, x, t, i2, j2, k2) {
            let (a1, b1, c1) = choose|a: int, b: int, c: int| #[trigger]
                nfa.is_edge(a, b, c) && place_before(a, b, c, i2, j2, k2) && nfa.nodes[a].0 == n
                    && nfa.symbol_at(a, b) == x && nfa.target_at(a, b, c) == t;
            assert(nfa.is_edge(a1, b1, c1) && place_before(a1, b1, c1, i, j, k));
        }
    }
}

/// A table of the given size with nothing marked.
fn blank_cube(n: usize, m: usize) -> (delta: Vec<Vec<Vec<bool>>>)
    ensures
        delta.len() == n,
        forall|p: int| 0 <= p < n ==> (#[trigger] delta[p]).len() == m,
        forall|p: int, a: int| 0 <= p < n && 0 <= a < m ==> (#[trigger] delta[p][a]).len() == n,
        forall|p: int, a: int, q: int|
            0 <= p < n && 0 <= a < m && 0 <= q < n ==> !(#[trigger] delta[p][a][q]),
{
    let mut line: Vec<bool> = Vec::new();
    let mut q: usize = 0;
    while q < n
        invariant
            q <= n,
            line.len() == q,
            forall|e: int| 0 <= e < q ==> !(#[trigger] line[e]),
        decreases n - q,
    {
        line.push(false);
        q += 1;
    }
    let mut plane: Vec<Vec<bool>> = Vec::new();
    let mut a: usize = 0;
    while a < m
        invariant
            a <= m,
            plane.len() == a,
            line.len() == n,
            forall|e: int| 0 <= e < n ==> !(#[trigger] line[e]),
            forall|b: int| 0 <= b < a ==> (#[trigger] plane[b])@ == line@,
        decreases m - a,
    {
        plane.push(line.clone());
        a += 1;
    }
    let mut delta: Vec<Vec<Vec<bool>>> = Vec::new();
    let mut p: usize = 0;
    while p < n
        invariant
            p <= n,
            delta.len() == p,
            plane.len() == m,
            line.len() == n,
            forall|e: int| 0 <= e < n ==> !(#[trigger] line[e]),
            forall|b: int| 0 <= b < m ==> (#[trigger] plane[b])@ == line@,
            forall|r: int| 0 <= r < p ==> (#[trigger] delta[r]).len() == m,
            forall|r: int, b: int| 0 <= r < p && 0 <= b < m ==> (#[trigger] delta[r][b])@ == line@,
        decreases n - p,
    {
        let mut copy: Vec<Vec<bool>> = Vec::new();
        let mut b: usize = 0;
        while b < m
            invariant
                b <= m,
                copy.len() == b,
                plane.len() == m,
                forall|e: int| 0 <= e < m ==> (#[trigger] plane[e])@ == line@,
                forall|e: int| 0 <= e < b ==> (#[trigger] copy[e])@ == line@,
            decreases m - b,
        {
            copy.push(plane[b].clone());
            b += 1;
        }
        delta.push(copy);
        p += 1;
    }
    delta
}

impl Nfa<Sanitary> {
    /// The names of all states, as listed.
    fn node_names(&self) -> (all: Vec<String>)
        ensures
            forall|q: Seq<char>| all.deep_view().contains(q) <==> self@.has_state(q),
    {
        let nodes = self.nodes();
        let ghost v = self@;
        let mut all: Vec<String> = Vec::new();
        let mut i: usize = 0;
        while i < nodes.len()
            invariant
                i <= nodes.len(),
                nodes.deep_view() == v.nodes,
                all.len() == i,
                forall|e: int| 0 <= e < i ==> (#[trigger] all[e])@ == v.nodes[e].0,
            decreases nodes.len() - i,
        {
            assert(v.nodes[i as int].0 == nodes[i as int].0@);
            all.push(nodes[i].0.clone());
            i += 1;
        }
        proof {
            assert(v.nodes.len() == nodes.len());
            assert forall|q: Seq<char>| all.deep_view().contains(q) <==> v.has_state(q) by {
                if all.deep_view().contains(q) {
                    let e = choose|e: int| 0 <= e < all.len() && all.deep_view()[e] == q;
                    assert(v.nodes[e].0 == q);
                }
                if v.has_state(q) {
                    let e = choose|e: int| 0 <= e < v.nodes.len() && (#[trigger] v.nodes[e]).0 == q;
                    assert(all.deep_view()[e] == q);
                }
            }
        }
        all
    }

    /// The automaton with its states and symbols numbered.
    pub(crate) fn numbered(&self) -> (r: Numbered)
        ensures
            r.numbers(self@),
            self@.well_formed(),
    {
        proof {
            use_type_invariant(self);
        }
        let ghost v = self@;
        let names = listed_once(self.node_names());
        let symbols = listed_once(copy_names(self.alphabet()));
        let n = names.len();
        let m = symbols.len();
        let ghost ns = names.deep_view();
        let ghost xs = symbols.deep_view();
        let start = place(&names, self.start());
        let finals_listed = self.final_states();
        let mut finals: Vec<bool> = Vec::new();
        let mut q: usize = 0;
        while q < n
            invariant
                q <= n,
                n == names.len(),
                finals.len() == q,
                finals_listed.deep_view() == v.final_states,
                forall|e: int| 0 <= e < q ==> (#[trigger] finals[e]) == v.is_final(names[e]@),
            decreases n - q,
        {
            let found = position(finals_listed, &names[q]);
            proof {
                let key = names[q as int]@;
                if found is Some {
                    assert(v.final_states[found.unwrap() as int] == key);
                } else if v.final_states.contains(key) {
                    let e = choose|e: int|
                        0 <= e < v.final_states.len() && v.final_states[e] == key;
                    assert(finals_listed[e]@ == key);
                }
            }
            finals.push(found.is_some());
            q += 1;
        }
        let nodes = self.nodes();
        let mut delta = blank_cube(n, m);
        proof {
            assert(entered(v, ns, xs, delta, 0, 0, 0)) by {
                assert forall|p: int, a: int, q: int|
                    0 <= p < ns.len() && 0 <= a < xs.len() && 0 <= q < ns.len() implies (
                #[trigger] delta[p][a][q]) == moves_before(v, ns[p], xs[a], ns[q], 0, 0, 0) by {}
            }
        }
        let mut i: usize = 0;
        while i < nodes.len()
            invariant
                i <= nodes.len(),
                v == self@,
                v.well_formed(),
                nodes.deep_view() == v.nodes,
                ns == names.deep_view(),
                xs == symbols.deep_view(),
                n == names.len(),
                m == symbols.len(),
                lists_all(ns, |q: Seq<char>| v.has_state(q)),
                lists_all(xs, |x: Seq<char>| v.has_symbol(x)),
                entered(v, ns, xs, delta, i as int, 0, 0),
            decreases nodes.len() - i,
        {
            assert(v.nodes[i as int].0 == nodes[i as int].0@);
            assert(v.nodes[i as int].1.len() == nodes[i as int].1.len());
            assert(v.has_state(v.nodes[i as int].0));
            let p = place(&names, &nodes[i].0);
            let mut j: usize = 0;
            while j < nodes[i].1.len()
                invariant
                    i < nodes.len(),
                    j <= nodes[i as int].1.len(),
                    v == self@,
                    v.well_formed(),
                    nodes.deep_view() == v.nodes,
                    v.nodes[i as int].1.len() == nodes[i as int].1.len(),
                    ns == names.deep_view(),
                    xs == symbols.deep_view(),
                    n == names.len(),
                    m == symbols.len(),
                    p < n,
                    ns[p as int] == v.nodes[i as int].0,
                    lists_all(ns, |q: Seq<char>| v.has_state(q)),
                    lists_all(xs, |x: Seq<char>| v.has_symbol(x)),
                    entered(v, ns, xs, delta, i as int, j as int, 0),
                decreases nodes[i as int].1.len() - j,
            {
                assert(v.is_move(i as int, j as int));
                assert(v.symbol_at(i as int, j as int) == nodes[i as int].1[j as int].0@);
                assert(v.nodes[i as int].1[j as int].1.len() == nodes[i as int].1[j as int].1.len());
                assert(v.has_symbol(v.symbol_at(i as int, j as int)));
                let a = place(&symbols, &nodes[i].1[j].0);
                let mut k: usize = 0;
                while k < nodes[i].1[j].1.len()
                    invariant
                        i < nodes.len(),
                        j < nodes[i as int].1.len(),
                        k <= nodes[i as int].1[j as int].1.len(),
                        v == self@,
                        v.well_formed(),
                        nodes.deep_view() == v.nodes,
                        v.nodes[i as int].1.len() == nodes[i as int].1.len(),
                        v.nodes[i as int].1[j as int].1.len() == nodes[i as int].1[j as int].1.len(),
                        ns == names.deep_view(),
                        xs == symbols.deep_view(),
                        n == names.len(),
                        m == symbols.len(),
                        p < n,
                        a < m,
                        ns[p as int] == v.nodes[i as int].0,
                        xs[a as int] == v.symbol_at(i as int, j as int),
                        lists_all(ns, |q: Seq<char>| v.has_state(q)),
                        lists_all(xs, |x: Seq<char>| v.has_symbol(x)),
                        entered(v, ns, xs, delta, i as int, j as int, k as int),
                    decreases nodes[i as int].1[j as int].1.len() - k,
                {
                    assert(v.is_edge(i as int, j as int, k as int));
                    assert(v.target_at(i as int, j as int, k as int)
                        == nodes[i as int].1[j as int].1[k as int]@);
                    assert(v.has_state(v.target_at(i as int, j as int, k as int)));
                    let q = place(&names, &nodes[i].1[j].1[k]);
                    let ghost before = delta;
                    delta[p][a][q] = true;
                    proof {
                        lemma_entered_one(
                            v,
                            ns,
                            xs,
                            before,
                            delta,
                            i as int,
                            j as int,
                            k as int,
                            p as int,
                            a as int,
                            q as int,
                        );
                    }
                    k += 1;
                }
                proof {
                    lemma_same_places(
                        v,
                        ns,
                        xs,
                        delta,
                        i as int,
                        j as int,
                        k as int,
                        i as int,
                        j + 1,
                        0,
                    );
                }
                j += 1;
            }
            proof {
                lemma_same_places(v, ns, xs, delta, i as int, j as int, 0, i + 1, 0, 0);
            }
            i += 1;
        }
        let r = Numbered { names, symbols, start, finals, delta };
        proof {
            assert forall|p: int, a: int, q: int|
                0 <= p < r.size() && 0 <= a < r.width() && 0 <= q < r.size() implies (
            #[trigger] r.delta[p][a][q]) == v.moves(r.names[p]@, r.symbols[a]@, r.names[q]@) by {
                let (s, x, t) = (ns[p], xs[a], ns[q]);
                assert(delta[p][a][q] == moves_before(v, s, x, t, i as int, 0, 0));
                if v.moves(s, x, t) {
                    let (a1, b1, c1) = choose|a: int, b: int, c: int| #[trigger]
                        v.is_edge(a, b, c) && v.nodes[a].0 == s && v.symbol_at(a, b) == x
                            && v.target_at(a, b, c) == t;
                    assert(v.is_edge(a1, b1, c1) && place_before(a1, b1, c1, i as int, 0, 0));
                }
            }
        }
        r
    }
}

/// Entering the transition at the place `(i, j, k)` marks what it says and
/// nothing else.
proof fn lemma_entered_one(
    nfa: NfaView,
    names: Seq<Seq<char>>,
    symbols: Seq<Seq<char>>,
    before: Vec<Vec<Vec<bool>>>,
    after: Vec<Vec<Vec<bool>>>,
    i: int,
    j: int,
    k: int,
    p: int,
    a: int,
    q: int,
)
    requires
        names.no_duplicates(),
        symbols.no_duplicates(),
        entered(nfa, names, symbols, before, i, j, k),
        nfa.is_edge(i, j, k),
        0 <= p < names.len(),
        0 <= a < symbols.len(),
        0 <= q < names.len(),
        names[p] == nfa.nodes[i].0,
        symbols[a] == nfa.symbol_at(i, j),
        names[q] == nfa.target_at(i, j, k),
        after.len() == before.len(),
        forall|r: int| 0 <= r < names.len() ==> (#[trigger] after[r]).len() == symbols.len(),
        forall|r: int, b: int|
            0 <= r < names.len() && 0 <= b < symbols.len() ==> (#[trigger] after[r][b]).len()
                == names.len(),
        forall|r: int, b: int, s: int|
            0 <= r < names.len() && 0 <= b < symbols.len() && 0 <= s < names.len() ==> (
            #[trigger] after[r][b][s]) == (before[r][b][s] || (r == p && b == a && s == q)),
    ensures
        entered(nfa, names, symbols, after, i, j, k + 1),
{
    assert forall|r: int, b: int, s: int|
        0 <= r < names.len() && 0 <= b < symbols.len() && 0 <= s < names.len() implies (
    #[trigger] after[r][b][s]) == moves_before(nfa, names[r], symbols[b], names[s], i, j, k + 1) by {
        let (n, x, t) = (names[r], symbols[b], names[s]);
        assert(before[r][b][s] == moves_before(nfa, n, x, t, i, j, k));
        if moves_before(nfa, n, x, t, i, j, k) {
            let (a1, b1, c1) = choose|a: int, b: int, c: int| #[trigger]
                nfa.is_edge(a, b, c) && place_before(a, b, c, i, j, k) && nfa.nodes[a].0 == n
                    && nfa.symbol_at(a, b) == x && nfa.target_at(a, b, c) == t;
            assert(nfa.is_edge(a1, b1, c1) && place_before(a1, b1, c1, i, j, k + 1));
        }
        if r == p && b == a && s == q {
            assert(nfa.is_edge(i, j, k) && place_before(i, j, k, i, j, k + 1));
        }
        if moves_before(nfa, n, x, t, i, j, k + 1) {
            let (a1, b1, c1) = choose|a: int, b: int, c: int| #[trigger]
                nfa.is_edge(a, b, c) && place_before(a, b, c, i, j, k + 1) && nfa.nodes[a].0 == n
                    && nfa.symbol_at(a, b) == x && nfa.target_at(a, b, c) == t;
            if place_before(a1, b1, c1, i, j, k) {
                assert(nfa.is_edge(a1, b1, c1) && place_before(a1, b1, c1, i, j, k));
            } else {
                assert(a1 == i && b1 == j && c1 == k);
            }
        }
    }
}

} // verus!
