//! Merging the states of a deterministic automaton that no word tells apart.
//!
//! The states of the result are the classes of states that accept the same
//! words. A class is shown by the names of its members in listing order,
//! joined by the class separator, and it moves as its first member does.

use crate::dfa::{rows, Dfa, DfaView};
use crate::distinguish::{lemma_distinct_below, marks_told_apart};
use crate::names::{
    class_separator, interspersed, joined, lemma_listed_before_total,
    lemma_listed_before_transitive, listed_before, name_le_exec,
};
use vstd::prelude::*;

verus! {

impl DfaView {
    /// The state `i` comes first in the listing order among the states that
    /// accept the same words as it does.
    pub open spec fn first_of_class(self, i: usize) -> bool {
        &&& i < self.len()
        &&& forall|j: usize|
            j < self.len() && j != i && #[trigger] self.equivalent(Some(j), Some(i))
                ==> listed_before(self.names, i as int, j as int)
    }

    /// `listing` holds exactly the states that accept the same words as `i`,
    /// in listing order.
    pub open spec fn lists_class(self, listing: Seq<usize>, i: usize) -> bool {
        &&& forall|k: int|
            0 <= k < listing.len() ==> (#[trigger] listing[k]) < self.len() && self.equivalent(
                Some(listing[k]),
                Some(i),
            )
        &&& forall|j: usize|
            j < self.len() && #[trigger] self.equivalent(Some(j), Some(i)) ==> listing.contains(j)
        &&& forall|k1: int, k2: int|
            0 <= k1 < k2 < listing.len() ==> listed_before(
                self.names,
                #[trigger] listing[k1] as int,
                #[trigger] listing[k2] as int,
            )
    }

    /// The names of the listed states, in the order of the listing.
    pub open spec fn names_of(self, listing: Seq<usize>) -> Seq<Seq<char>> {
        Seq::new(listing.len(), |k: int| self.names[listing[k] as int])
    }

    /// `name` shows the class of state `i`: the names of its members in
    /// listing order, joined by the class separator.
    pub open spec fn names_class(self, name: Seq<char>, i: usize) -> bool {
        exists|listing: Seq<usize>| #[trigger]
            self.lists_class(listing, i) && name == joined(
                self.names_of(listing),
                class_separator(),
            )
    }

    /// `self` is `d` with the states that accept the same words merged, and
    /// `class_of[i]` is the state of `self` that the state `i` of `d` has
    /// become.
    pub open spec fn merges(self, d: DfaView, class_of: Seq<usize>) -> bool {
        &&& self.alphabet == d.alphabet
        &&& class_of.len() == d.len()
        &&& forall|i: int| 0 <= i < d.len() ==> (#[trigger] class_of[i]) < self.len()
        &&& forall|c: usize| c < self.len() ==> class_of.contains(c)
        &&& forall|i: usize, j: usize|
            i < d.len() && j < d.len() ==> (class_of[i as int] == class_of[j as int]
                <==> #[trigger] d.equivalent(Some(i), Some(j)))
        &&& self.start == class_of[d.start as int]
        &&& forall|i: int|
            0 <= i < d.len() ==> self.accepting[(#[trigger] class_of[i]) as int] == d.accepting[i]
        &&& forall|i: usize, a: int|
            #![trigger d.first_of_class(i), d.table[i as int][a]]
            d.first_of_class(i) && 0 <= a < d.alphabet.len()
                ==> self.table[class_of[i as int] as int][a] == shifted(
                class_of,
                d.table[i as int][a],
            )
        &&& forall|i: usize|
            i < d.len() ==> d.names_class(self.names[(#[trigger] class_of[i as int]) as int], i)
    }

    /// `pair` is a pair of different states that accept the same words, the
    /// one that the listing order puts first standing first.
    pub open spec fn equivalent_pair(self, pair: (usize, usize)) -> bool {
        &&& pair.0 < self.len()
        &&& pair.1 < self.len()
        &&& pair.0 != pair.1
        &&& listed_before(self.names, pair.0 as int, pair.1 as int)
        &&& self.equivalent(Some(pair.0), Some(pair.1))
    }

    /// `found` holds every pair of different states that accept the same
    /// words, once.
    pub open spec fn lists_equivalent_pairs(self, found: Seq<(usize, usize)>) -> bool {
        &&& found.no_duplicates()
        &&& forall|k: int| 0 <= k < found.len() ==> self.equivalent_pair(#[trigger] found[k])
        &&& forall|i: usize, j: usize| #[trigger]
            self.equivalent_pair((i, j)) ==> found.contains((i, j))
    }

    /// Accepting the same words is symmetric and transitive.
    pub proof fn lemma_equivalent_chain(self, p: Option<usize>, q: Option<usize>, r: Option<usize>)
        ensures
            self.equivalent(p, p),
            self.equivalent(p, q) ==> self.equivalent(q, p),
            self.equivalent(p, q) && self.equivalent(q, r) ==> self.equivalent(p, r),
    {
        if self.equivalent(p, q) {
            assert forall|w: Seq<Seq<char>>|
                self.accepts_from(q, w) == self.accepts_from(p, w) by {
                assert(self.accepts_from(p, w) == self.accepts_from(q, w));
            }
            if self.equivalent(q, r) {
                assert forall|w: Seq<Seq<char>>|
                    self.accepts_from(p, w) == self.accepts_from(r, w) by {
                    assert(self.accepts_from(p, w) == self.accepts_from(q, w));
                    assert(self.accepts_from(q, w) == self.accepts_from(r, w));
                }
            }
        }
    }

    /// From the state that a state has become, the merged automaton accepts
    /// the words that the first automaton accepts from that state.
    pub proof fn lemma_merged_reads_alike(
        self,
        d: DfaView,
        class_of: Seq<usize>,
        i: usize,
        w: Seq<Seq<char>>,
    )
        requires
            d.well_formed(),
            self.well_formed(),
            self.merges(d, class_of),
            i < d.len(),
        ensures
            self.accepts_from(Some(class_of[i as int]), w) == d.accepts_from(Some(i), w),
        decreases w.len(),
    {
        let c = class_of[i as int];
        if w.len() == 0 {
        } else {
            let x = w[0];
            let rest = w.drop_first();
            if d.alphabet.contains(x) {
                let a = d.alphabet.index_of(x);
                // The first member of the class of `i`.
                let name = self.names[c as int];
                assert(d.names_class(name, i));
                let listing = choose|listing: Seq<usize>| #[trigger]
                    d.lists_class(listing, i) && name == joined(
                        d.names_of(listing),
                        class_separator(),
                    );
                d.lemma_equivalent_chain(Some(i), Some(i), Some(i));
                assert(listing.contains(i));
                let r = listing[0];
                assert(d.first_of_class(r)) by {
                    assert forall|j: usize|
                        j < d.len() && j != r && #[trigger] d.equivalent(
                            Some(j),
                            Some(r),
                        ) implies listed_before(d.names, r as int, j as int) by {
                        d.lemma_equivalent_chain(Some(j), Some(r), Some(i));
                        assert(listing.contains(j));
                        let k = choose|k: int| 0 <= k < listing.len() && listing[k] == j;
                        assert(listed_before(d.names, listing[0] as int, listing[k] as int));
                    }
                }
                d.lemma_equivalent_chain(Some(r), Some(i), Some(i));
                assert(d.equivalent(Some(r), Some(i)));
                assert(class_of[r as int] == c);
                // Both automata step on the `a`-th symbol.
                d.lemma_step_symbol(i, a);
                d.lemma_step_symbol(r, a);
                self.lemma_step_symbol(c, a);
                let t = d.table[r as int][a];
                assert(d.leads_inside(t));
                assert(self.table[c as int][a] == shifted(class_of, t));
                d.lemma_equivalent_step(Some(r), Some(i), x);
                assert(d.accepts_from(t, rest) == d.accepts_from(d.table[i as int][a], rest));
                match t {
                    Some(j) => {
                        self.lemma_merged_reads_alike(d, class_of, j, rest);
                    },
                    None => {
                        self.lemma_dead_rejects(rest);
                        d.lemma_dead_rejects(rest);
                    },
                }
            } else {
                self.lemma_dead_rejects(rest);
                d.lemma_dead_rejects(rest);
            }
        }
    }

    /// Merging the states that accept the same words leaves the accepted
    /// words as they were.
    pub proof fn lemma_merged_language(self, d: DfaView, class_of: Seq<usize>)
        requires
            d.well_formed(),
            self.well_formed(),
            self.merges(d, class_of),
        ensures
            forall|w: Seq<Seq<char>>| self.accepts(w) == d.accepts(w),
    {
        assert forall|w: Seq<Seq<char>>| self.accepts(w) == d.accepts(w) by {
            self.lemma_merged_reads_alike(d, class_of, d.start, w);
        }
    }

    /// After merging, no two different states accept the same words.
    pub proof fn lemma_merged_reduced(self, d: DfaView, class_of: Seq<usize>)
        requires
            d.well_formed(),
            self.well_formed(),
            self.merges(d, class_of),
        ensures
            self.reduced(),
    {
        assert forall|b: usize, c: usize|
            b < self.len() && c < self.len() && b != c implies !#[trigger] self.equivalent(
            Some(b),
            Some(c),
        ) by {
            assert(class_of.contains(b));
            assert(class_of.contains(c));
            let i = (choose|i: int| 0 <= i < class_of.len() && class_of[i] == b) as usize;
            let j = (choose|j: int| 0 <= j < class_of.len() && class_of[j] == c) as usize;
            assert(!d.equivalent(Some(i), Some(j)));
            let w = choose|w: Seq<Seq<char>>|
                d.accepts_from(Some(i), w) != d.accepts_from(Some(j), w);
            self.lemma_merged_reads_alike(d, class_of, i, w);
            self.lemma_merged_reads_alike(d, class_of, j, w);
        }
    }

    /// Merging never adds states, and removes none where no two different
    /// states accept the same words.
    pub proof fn lemma_merged_size(self, d: DfaView, class_of: Seq<usize>)
        requires
            d.well_formed(),
            self.well_formed(),
            self.merges(d, class_of),
        ensures
            self.len() <= d.len(),
            d.reduced() ==> self.len() == d.len(),
    {
        // One state of `d` for every state of `self`.
        let picked = Seq::new(self.len(), |c: int| class_of.index_of(c as usize));
        assert forall|c: int| 0 <= c < picked.len() implies 0 <= #[trigger] picked[c] < d.len()
            && class_of[picked[c]] == c by {
            assert(class_of.contains(c as usize));
        }
        assert(picked.no_duplicates());
        lemma_distinct_below(picked, d.len() as int);
        if d.reduced() {
            let codes = Seq::new(d.len(), |i: int| class_of[i] as int);
            assert forall|i: int, j: int|
                0 <= i < codes.len() && 0 <= j < codes.len() && i != j implies codes[i]
                != codes[j] by {
                assert(!d.equivalent(Some(i as usize), Some(j as usize)));
            }
            lemma_distinct_below(codes, self.len() as int);
        }
    }

    /// Merging what has been merged changes the number of states no more.
    pub proof fn lemma_merged_twice(
        self,
        once: DfaView,
        second: Seq<usize>,
        d: DfaView,
        first: Seq<usize>,
    )
        requires
            d.well_formed(),
            once.well_formed(),
            self.well_formed(),
            once.merges(d, first),
            self.merges(once, second),
        ensures
            self.len() == once.len(),
    {
        once.lemma_merged_reduced(d, first);
        self.lemma_merged_size(once, second);
    }
}

/// The state that a transition leads to after merging: the class of the
/// state, or the dead state as before.
pub open spec fn shifted(class_of: Seq<usize>, t: Option<usize>) -> Option<usize> {
    match t {
        Some(j) => Some(class_of[j as int]),
        None => None,
    }
}

/// `order` holds every state once, in listing order.
pub open spec fn in_listing_order(names: Seq<Seq<char>>, order: Seq<usize>) -> bool {
    &&& order.len() == names.len()
    &&& forall|k: int| 0 <= k < order.len() ==> (#[trigger] order[k]) < names.len()
    &&& forall|j: usize| j < names.len() ==> order.contains(j)
    &&& ordered(names, order)
}

/// Every state in `order` is listed before those that follow it.
pub open spec fn ordered(names: Seq<Seq<char>>, order: Seq<usize>) -> bool {
    forall|k1: int, k2: int|
        0 <= k1 < k2 < order.len() ==> listed_before(
            names,
            #[trigger] order[k1] as int,
            #[trigger] order[k2] as int,
        )
}

impl Dfa {
    /// Whether state `i` is listed before state `j`.
    fn listed_first(&self, i: usize, j: usize) -> (r: bool)
        requires
            i < self@.len(),
            j < self@.len(),
        ensures
            r == listed_before(self@.names, i as int, j as int),
    {
        let a = self.name(i);
        let b = self.name(j);
        if *a == *b {
            i < j
        } else {
            name_le_exec(a.as_str(), b.as_str())
        }
    }

    /// The states in listing order.
    pub(crate) fn listing_order(&self) -> (order: Vec<usize>)
        ensures
            in_listing_order(self@.names, order@),
    {
        let n = self.len();
        let ghost names = self@.names;
        let mut order: Vec<usize> = Vec::new();
        let mut i: usize = 0;
        while i < n
            invariant
                i <= n,
                n == self@.len(),
                names == self@.names,
                order.len() == i,
                forall|k: int| 0 <= k < order.len() ==> (#[trigger] order[k]) < i,
                forall|j: usize| j < i ==> order@.contains(j),
                ordered(names, order@),
            decreases n - i,
        {
            let mut k: usize = 0;
            while k < order.len() && !self.listed_first(i, order[k])
                invariant
                    k <= order.len(),
                    i < n,
                    n == self@.len(),
                    names == self@.names,
                    forall|e: int| 0 <= e < order.len() ==> (#[trigger] order[e]) < i,
                    forall|e: int|
                        0 <= e < k ==> listed_before(names, (#[trigger] order[e]) as int, i as int),
                decreases order.len() - k,
            {
                proof {
                    lemma_listed_before_total(names, i as int, order[k as int] as int);
                }
                k += 1;
            }
            let ghost before = order@;
            order.insert(k, i);
            proof {
                assert forall|k1: int, k2: int| 0 <= k1 < k2 < order.len() implies listed_before(
                    names,
                    #[trigger] order[k1] as int,
                    #[trigger] order[k2] as int,
                ) by {
                    if k2 < k {
                        assert(order[k1] == before[k1] && order[k2] == before[k2]);
                    } else if k2 == k {
                        assert(order[k1] == before[k1]);
                    } else if k1 < k {
                        assert(order[k1] == before[k1] && order[k2] == before[k2 - 1]);
                    } else if k1 == k {
                        assert(order[k2] == before[k2 - 1]);
                        if k2 - 1 > k {
                            assert(listed_before(
                                names,
                                before[k as int] as int,
                                before[k2 - 1] as int,
                            ));
                            lemma_listed_before_transitive(
                                names,
                                i as int,
                                before[k as int] as int,
                                before[k2 - 1] as int,
                            );
                        }
                    } else {
                        assert(order[k1] == before[k1 - 1] && order[k2] == before[k2 - 1]);
                    }
                }
                assert forall|j: usize| j < i + 1 implies order@.contains(j) by {
                    if j < i {
                        assert(before.contains(j));
                        let e = choose|e: int| 0 <= e < before.len() && before[e] == j;
                        if e < k {
                            assert(order[e] == j);
                        } else {
                            assert(order[e + 1] == j);
                        }
                    } else {
                        assert(order[k as int] == j);
                    }
                }
                assert forall|e: int| 0 <= e < order.len() implies (#[trigger] order[e]) < i
                    + 1 by {
                    if e < k {
                        assert(order[e] == before[e]);
                    } else if e > k {
                        assert(order[e] == before[e - 1]);
                    }
                }
            }
            i += 1;
        }
        order
    }

    /// The pairs of different states that accept the same words, by the
    /// names of the states. In every pair the state that comes first in the
    /// listing order stands first.
    pub fn lint_states(&self) -> (pairs: Vec<(String, String)>)
        ensures
            exists|found: Seq<(usize, usize)>|
                {
                    &&& #[trigger] self@.lists_equivalent_pairs(found)
                    &&& pairs.len() == found.len()
                    &&& forall|k: int|
                        0 <= k < pairs.len() ==> {
                            &&& (#[trigger] pairs[k]).0@ == self@.names[found[k].0 as int]
                            &&& pairs[k].1@ == self@.names[found[k].1 as int]
                        }
                },
    {
        proof {
            use_type_invariant(self);
        }
        let n = self.len();
        let marked = self.distinguish();
        let order = self.listing_order();
        let ghost d = self@;
        let mut pairs: Vec<(String, String)> = Vec::new();
        let ghost mut found: Seq<(usize, usize)> = Seq::empty();
        let ghost mut places: Seq<(int, int)> = Seq::empty();
        let mut k1: usize = 0;
        while k1 < n
            invariant
                k1 <= n,
                d == self@,
                n == d.len(),
                d.well_formed(),
                marks_told_apart(d, marked),
                in_listing_order(d.names, order@),
                pairs_so_far(d, order@, found, places, pairs, k1 as int, 0),
            decreases n - k1,
        {
            let i = order[k1];
            let mut k2: usize = k1 + 1;
            proof {
                assert(pairs_so_far(d, order@, found, places, pairs, k1 as int, k1 + 1)) by {
                    assert forall|e: int| 0 <= e < places.len() implies in_rows_before(
                        #[trigger] places[e],
                        k1 as int,
                        k1 + 1,
                    ) by {
                        assert(in_rows_before(places[e], k1 as int, 0));
                    }
                }
            }
            while k2 < n
                invariant
                    k1 < n,
                    k1 < k2 <= n,
                    i == order[k1 as int],
                    d == self@,
                    n == d.len(),
                    d.well_formed(),
                    marks_told_apart(d, marked),
                    in_listing_order(d.names, order@),
                    pairs_so_far(d, order@, found, places, pairs, k1 as int, k2 as int),
                decreases n - k2,
            {
                let j = order[k2];
                assert(order[k1 as int] < n && order[k2 as int] < n);
                if !marked[i][j] {
                    let ghost found0 = found;
                    let ghost places0 = places;
                    pairs.push((self.name(i).clone(), self.name(j).clone()));
                    proof {
                        found = found.push((i, j));
                        places = places.push((k1 as int, k2 as int));
                        assert(d.state_at(i as int) == Some(i));
                        assert(d.state_at(j as int) == Some(j));
                        assert(listed_before(d.names, order[k1 as int] as int, order[k2 as int] as int));
                        lemma_listed_before_total(d.names, i as int, j as int);
                        assert(d.equivalent_pair((i, j)));
                        assert forall|e: int| 0 <= e < found.len() implies d.equivalent_pair(
                            #[trigger] found[e],
                        ) by {
                            if e < found0.len() {
                                assert(found[e] == found0[e]);
                            }
                        }
                        assert forall|e: int| 0 <= e < places.len() implies in_rows_before(
                            #[trigger] places[e],
                            k1 as int,
                            k2 + 1,
                        ) && 0 <= places[e].0 && places[e].1 < order.len() && found[e] == (
                            order[places[e].0] as usize,
                            order[places[e].1] as usize,
                        ) by {
                            if e < places0.len() {
                                assert(places[e] == places0[e]);
                                assert(found[e] == found0[e]);
                                assert(in_rows_before(places0[e], k1 as int, k2 as int));
                            }
                        }
                        assert forall|e1: int, e2: int|
                            0 <= e1 < found.len() && 0 <= e2 < found.len() && e1
                                != e2 implies found[e1] != found[e2] by {
                            lemma_order_distinct(d.names, order@);
                            if e1 < found0.len() && e2 < found0.len() {
                                assert(found0[e1] != found0[e2]);
                            } else if e1 < found0.len() {
                                assert(in_rows_before(places0[e1], k1 as int, k2 as int));
                                assert(found0[e1] == (
                                    order[places0[e1].0] as usize,
                                    order[places0[e1].1] as usize,
                                ));
                            } else {
                                assert(in_rows_before(places0[e2], k1 as int, k2 as int));
                                assert(found0[e2] == (
                                    order[places0[e2].0] as usize,
                                    order[places0[e2].1] as usize,
                                ));
                            }
                        }
                        assert forall|a: int, b: int|
                            0 <= a < b < n && in_rows_before((a, b), k1 as int, k2 + 1)
                                && d.equivalent(
                                Some(#[trigger] order[a]),
                                Some(#[trigger] order[b]),
                            ) implies found.contains((order[a], order[b])) by {
                            if in_rows_before((a, b), k1 as int, k2 as int) {
                                assert(found0.contains((order[a], order[b])));
                                let e = choose|e: int|
                                    0 <= e < found0.len() && found0[e] == (order[a], order[b]);
                                assert(found[e] == found0[e]);
                            } else {
                                assert(found[found0.len() as int] == (i, j));
                            }
                        }
                    }
                } else {
                    proof {
                        assert(d.state_at(i as int) == Some(i));
                        assert(d.state_at(j as int) == Some(j));
                        assert forall|e: int| 0 <= e < places.len() implies in_rows_before(
                            #[trigger] places[e],
                            k1 as int,
                            k2 + 1,
                        ) by {
                            assert(in_rows_before(places[e], k1 as int, k2 as int));
                        }
                    }
                }
                k2 += 1;
            }
            proof {
                assert(pairs_so_far(d, order@, found, places, pairs, k1 + 1, 0)) by {
                    assert forall|e: int| 0 <= e < places.len() implies in_rows_before(
                        #[trigger] places[e],
                        k1 + 1,
                        0,
                    ) by {
                        assert(in_rows_before(places[e], k1 as int, n as int));
                    }
                }
            }
            k1 += 1;
        }
        proof {
            assert forall|i: usize, j: usize| #[trigger]
                d.equivalent_pair((i, j)) implies found.contains((i, j)) by {
                assert(order@.contains(i));
                assert(order@.contains(j));
                let a = choose|a: int| 0 <= a < order@.len() && order@[a] == i;
                let b = choose|b: int| 0 <= b < order@.len() && order@[b] == j;
                if b < a {
                    assert(listed_before(d.names, order[b] as int, order[a] as int));
                    lemma_listed_before_total(d.names, i as int, j as int);
                }
                assert(in_rows_before((a, b), n as int, 0));
            }
            assert(d.lists_equivalent_pairs(found));
        }
        pairs
    }

    /// For every state the first state, in listing order, that accepts the
    /// same words.
    fn class_firsts(&self, marked: &Vec<Vec<bool>>, order: &Vec<usize>) -> (first: Vec<usize>)
        requires
            marks_told_apart(self@, *marked),
            in_listing_order(self@.names, order@),
        ensures
            firsts(self@, first@),
    {
        proof {
            use_type_invariant(self);
        }
        let n = self.len();
        let ghost d = self@;
        let mut first: Vec<usize> = Vec::new();
        let mut i: usize = 0;
        while i < n
            invariant
                i <= n,
                d == self@,
                n == d.len(),
                d.well_formed(),
                marks_told_apart(d, *marked),
                in_listing_order(d.names, order@),
                first.len() == i,
                forall|e: int|
                    0 <= e < first.len() ==> {
                        &&& d.first_of_class(#[trigger] first[e])
                        &&& d.equivalent(Some(first[e]), Some(e as usize))
                    },
            decreases n - i,
        {
            let mut k: usize = 0;
            proof {
                assert(order@.contains(i));
                d.lemma_equivalent_chain(Some(i), Some(i), Some(i));
                assert(d.state_at(i as int) == Some(i));
            }
            while k < n && marked[order[k]][i]
                invariant
                    k <= n,
                    i < n,
                    d == self@,
                    n == d.len(),
                    marks_told_apart(d, *marked),
                    in_listing_order(d.names, order@),
                    exists|e: int| k <= e < n && order@[e] == i,
                    !marked[i as int][i as int],
                    forall|e: int| 0 <= e < k ==> marked[(#[trigger] order[e]) as int][i as int],
                decreases n - k,
            {
                assert(order[k as int] < n);
                k += 1;
            }
            assert(k < n);
            assert(order[k as int] < n);
            let r = order[k];
            proof {
                assert(d.state_at(r as int) == Some(r));
                assert(d.equivalent(Some(r), Some(i)));
                assert forall|j: usize|
                    j < d.len() && j != r && #[trigger] d.equivalent(
                        Some(j),
                        Some(r),
                    ) implies listed_before(d.names, r as int, j as int) by {
                    d.lemma_equivalent_chain(Some(j), Some(r), Some(i));
                    assert(d.state_at(j as int) == Some(j));
                    assert(!marked[j as int][i as int]);
                    assert(order@.contains(j));
                    let e = choose|e: int| 0 <= e < order@.len() && order@[e] == j;
                    if e < k {
                        assert(marked[order[e] as int][i as int]);
                    }
                    assert(listed_before(d.names, order[k as int] as int, order[e] as int));
                }
            }
            first.push(r);
            i += 1;
        }
        first
    }

    /// The names of the states that accept the same words as state `i`, in
    /// listing order, joined by the class separator.
    fn class_name(&self, marked: &Vec<Vec<bool>>, order: &Vec<usize>, i: usize) -> (name: String)
        requires
            marks_told_apart(self@, *marked),
            in_listing_order(self@.names, order@),
            i < self@.len(),
        ensures
            self@.names_class(name@, i),
    {
        let n = self.len();
        let ghost d = self@;
        let mut members: Vec<String> = Vec::new();
        let ghost mut listing: Seq<usize> = Seq::empty();
        let ghost mut places: Seq<int> = Seq::empty();
        let mut k: usize = 0;
        while k < n
            invariant
                k <= n,
                i < n,
                d == self@,
                n == d.len(),
                marks_told_apart(d, *marked),
                in_listing_order(d.names, order@),
                members.len() == listing.len(),
                members.deep_view() == d.names_of(listing),
                class_so_far(d, order@, listing, places, i, k as int),
            decreases n - k,
        {
            let j = order[k];
            assert(order[k as int] < n);
            assert(d.state_at(j as int) == Some(j));
            assert(d.state_at(i as int) == Some(i));
            if !marked[j][i] {
                let ghost listing0 = listing;
                let ghost places0 = places;
                let ghost members0 = members;
                members.push(self.name(j).clone());
                proof {
                    listing = listing.push(j);
                    places = places.push(k as int);
                    assert(members.deep_view() =~= d.names_of(listing)) by {
                        assert forall|e: int| 0 <= e < members.len() implies members.deep_view()[e]
                            == d.names_of(listing)[e] by {
                            if e < listing0.len() {
                                assert(members[e] == members0[e]);
                                assert(members0.deep_view()[e] == d.names_of(listing0)[e]);
                            }
                        }
                    }
                    lemma_class_grows(d, order@, listing0, places0, i, k as int);
                }
            } else {
                proof {
                    lemma_class_stays(d, order@, listing, places, i, k as int);
                }
            }
            k += 1;
        }
        proof {
            assert forall|j: usize|
                j < d.len() && #[trigger] d.equivalent(Some(j), Some(i)) implies listing.contains(
                j,
            ) by {
                assert(order@.contains(j));
                let b = choose|b: int| 0 <= b < order@.len() && order@[b] == j;
                assert(d.equivalent(Some(order@[b]), Some(i)));
            }
            assert(d.lists_class(listing, i));
        }
        interspersed(&members, " | ")
    }

    /// The automaton with the states that accept the same words merged into
    /// one state each.
    pub fn minimise(self) -> (merged: Dfa)
        ensures
            merged@.well_formed(),
            exists|class_of: Seq<usize>| #[trigger] merged@.merges(self@, class_of),
            forall|w: Seq<Seq<char>>| merged@.accepts(w) == self@.accepts(w),
            merged@.reduced(),
            merged@.len() <= self@.len(),
            self@.reduced() ==> merged@.len() == self@.len(),
    {
        proof {
            use_type_invariant(&self);
        }
        let n = self.len();
        let m = self.symbol_count();
        let ghost d = self@;
        let marked = self.distinguish();
        let order = self.listing_order();
        let first = self.class_firsts(&marked, &order);
        // Number the classes by their first members.
        let mut heads: Vec<usize> = Vec::new();
        let mut number: Vec<usize> = Vec::new();
        let mut i: usize = 0;
        while i < n
            invariant
                i <= n,
                n == d.len(),
                firsts(d, first@),
                numbered(first@, heads@, number@, i as int),
            decreases n - i,
        {
            if first[i] == i {
                number.push(heads.len());
                heads.push(i);
            } else {
                number.push(0);
            }
            i += 1;
        }
        let classes = heads.len();
        let mut class_of: Vec<usize> = Vec::new();
        let mut i: usize = 0;
        while i < n
            invariant
                i <= n,
                n == d.len(),
                classes == heads.len(),
                firsts(d, first@),
                numbered(first@, heads@, number@, n as int),
                classed(first@, heads@, number@, class_of@, i as int),
            decreases n - i,
        {
            proof {
                lemma_first_is_its_own(d, first@, i as int);
            }
            class_of.push(number[first[i]]);
            i += 1;
        }
        // The merged automaton, class by class.
        let mut names: Vec<String> = Vec::new();
        let mut accepting: Vec<bool> = Vec::new();
        let mut table: Vec<Vec<Option<usize>>> = Vec::new();
        let mut c: usize = 0;
        while c < classes
            invariant
                c <= classes,
                d == self@,
                n == d.len(),
                m == d.alphabet.len(),
                d.well_formed(),
                marks_told_apart(d, marked),
                in_listing_order(d.names, order@),
                classes == heads.len(),
                class_of.len() == n,
                names.len() == c,
                accepting.len() == c,
                table.len() == c,
                numbered(first@, heads@, number@, n as int),
                classed(first@, heads@, number@, class_of@, n as int),
                forall|b: int| 0 <= b < c ==> d.names_class((#[trigger] names[b])@, heads[b]),
                forall|b: int|
                    0 <= b < c ==> (#[trigger] accepting[b]) == d.accepting[heads[b] as int],
                forall|b: int| 0 <= b < c ==> (#[trigger] table[b]).len() == m,
                forall|b: int, a: int|
                    0 <= b < c && 0 <= a < m ==> (#[trigger] table[b][a]) == shifted(
                        class_of@,
                        d.table[heads[b] as int][a],
                    ),
            decreases classes - c,
        {
            let h = heads[c];
            assert(heads[c as int] < n);
            let name = self.class_name(&marked, &order, h);
            let mut row: Vec<Option<usize>> = Vec::new();
            let mut a: usize = 0;
            while a < m
                invariant
                    a <= m,
                    h < n,
                    d == self@,
                    n == d.len(),
                    m == d.alphabet.len(),
                    class_of.len() == n,
                    row.len() == a,
                    forall|b: int|
                        0 <= b < a ==> (#[trigger] row[b]) == shifted(
                            class_of@,
                            d.table[h as int][b],
                        ),
                decreases m - a,
            {
                let t = match self.target(h, a) {
                    Some(j) => Some(class_of[j]),
                    None => None,
                };
                row.push(t);
                a += 1;
            }
            names.push(name);
            accepting.push(self.is_final(h));
            table.push(row);
            c += 1;
        }
        let start = class_of[self.start_index()];
        let alphabet = self.alphabet();
        let ghost view = DfaView {
            alphabet: alphabet.deep_view(),
            names: names.deep_view(),
            start,
            accepting: accepting@,
            table: rows(table),
        };
        proof {
            assert(view.names.len() == names.len());
            assert forall|b: int| 0 <= b < names.len() implies d.names_class(
                #[trigger] view.names[b],
                heads[b],
            ) by {
                assert(view.names[b] == names[b]@);
            }
            assert(view.well_formed()) by {
                assert(view.alphabet.no_duplicates());
                assert(start < names.len());
                assert forall|b: int| 0 <= b < view.table.len() implies (
                #[trigger] view.table[b]).len() == view.alphabet.len() by {
                    assert(table[b].len() == m);
                }
                assert forall|b: int, a: int|
                    0 <= b < view.table.len() && 0 <= a < view.alphabet.len()
                        implies view.leads_inside(#[trigger] view.table[b][a]) by {
                    assert(table[b][a] == shifted(class_of@, d.table[heads[b] as int][a]));
                    assert(d.leads_inside(d.table[heads[b] as int][a]));
                }
            }
            lemma_merges(view, d, class_of@, first@, heads@, number@);
            view.lemma_merged_language(d, class_of@);
            view.lemma_merged_reduced(d, class_of@);
            view.lemma_merged_size(d, class_of@);
        }
        Dfa::assemble(alphabet, names, start, accepting, table)
    }
}

/// The place `(a, b)` of a pair comes before the place `(k1, k2)` when the
/// pairs are taken row by row.
spec fn in_rows_before(place: (int, int), k1: int, k2: int) -> bool {
    place.0 < place.1 && (place.0 < k1 || (place.0 == k1 && place.1 < k2))
}

/// What holds of the pairs found while the places before `(k1, k2)` have
/// been looked at.
spec fn pairs_so_far(
    d: DfaView,
    order: Seq<usize>,
    found: Seq<(usize, usize)>,
    places: Seq<(int, int)>,
    pairs: Vec<(String, String)>,
    k1: int,
    k2: int,
) -> bool {
    &&& found.len() == pairs.len()
    &&& places.len() == pairs.len()
    &&& found.no_duplicates()
    &&& forall|e: int| 0 <= e < found.len() ==> d.equivalent_pair(#[trigger] found[e])
    &&& forall|e: int|
        0 <= e < places.len() ==> in_rows_before(#[trigger] places[e], k1, k2) && 0
            <= places[e].0 && places[e].1 < order.len() && found[e] == (
            order[places[e].0] as usize,
            order[places[e].1] as usize,
        )
    &&& forall|e: int|
        0 <= e < pairs.len() ==> {
            &&& (#[trigger] pairs[e]).0@ == d.names[found[e].0 as int]
            &&& pairs[e].1@ == d.names[found[e].1 as int]
        }
    &&& forall|a: int, b: int|
        0 <= a < b < order.len() && in_rows_before((a, b), k1, k2) && d.equivalent(
            Some(#[trigger] order[a]),
            Some(#[trigger] order[b]),
        ) ==> found.contains((order[a], order[b]))
}

/// What holds of the members of the class of `i` found among the first `k`
/// states of the listing order; `places[e]` is where member `e` stands in
/// that order.
spec fn class_so_far(
    d: DfaView,
    order: Seq<usize>,
    listing: Seq<usize>,
    places: Seq<int>,
    i: usize,
    k: int,
) -> bool {
    &&& places.len() == listing.len()
    &&& forall|e: int|
        0 <= e < listing.len() ==> {
            &&& 0 <= (#[trigger] places[e]) < k
            &&& order[places[e]] == listing[e]
        }
    &&& forall|e1: int, e2: int|
        0 <= e1 < e2 < places.len() ==> (#[trigger] places[e1]) < (#[trigger] places[e2])
    &&& forall|e: int|
        0 <= e < listing.len() ==> (#[trigger] listing[e]) < d.len() && d.equivalent(
            Some(listing[e]),
            Some(i),
        )
    &&& forall|b: int|
        0 <= b < k && d.equivalent(Some(#[trigger] order[b]), Some(i)) ==> listing.contains(
            order[b],
        )
    &&& forall|e1: int, e2: int|
        0 <= e1 < e2 < listing.len() ==> listed_before(
            d.names,
            #[trigger] listing[e1] as int,
            #[trigger] listing[e2] as int,
        )
}

/// A member found at place `k` joins the class found so far.
proof fn lemma_class_grows(
    d: DfaView,
    order: Seq<usize>,
    listing: Seq<usize>,
    places: Seq<int>,
    i: usize,
    k: int,
)
    requires
        in_listing_order(d.names, order),
        class_so_far(d, order, listing, places, i, k),
        0 <= k < order.len(),
        d.equivalent(Some(order[k]), Some(i)),
    ensures
        class_so_far(d, order, listing.push(order[k]), places.push(k), i, k + 1),
{
    let j = order[k];
    let listing1 = listing.push(j);
    let places1 = places.push(k);
    assert forall|b: int|
        0 <= b < k + 1 && d.equivalent(Some(#[trigger] order[b]), Some(i)) implies listing1.contains(
        order[b],
    ) by {
        if b < k {
            assert(listing.contains(order[b]));
            let e = choose|e: int| 0 <= e < listing.len() && listing[e] == order[b];
            assert(listing1[e] == order[b]);
        } else {
            assert(listing1[listing.len() as int] == j);
        }
    }
    assert forall|e1: int, e2: int| 0 <= e1 < e2 < listing1.len() implies listed_before(
        d.names,
        #[trigger] listing1[e1] as int,
        #[trigger] listing1[e2] as int,
    ) by {
        if e2 < listing.len() {
            assert(listing1[e1] == listing[e1] && listing1[e2] == listing[e2]);
        } else {
            assert(listing1[e1] == listing[e1]);
            assert(0 <= places[e1] < k);
            assert(listed_before(d.names, order[places[e1]] as int, order[k] as int));
        }
    }
    assert forall|e: int| 0 <= e < listing1.len() implies 0 <= (#[trigger] places1[e]) < k + 1
        && order[places1[e]] == listing1[e] by {
        if e < listing.len() {
            assert(places1[e] == places[e]);
        }
    }
    assert forall|e1: int, e2: int| 0 <= e1 < e2 < places1.len() implies (#[trigger] places1[e1])
        < (#[trigger] places1[e2]) by {
        assert(places1[e1] == places[e1]);
        if e2 < places.len() {
            assert(places1[e2] == places[e2]);
        }
    }
    assert forall|e: int| 0 <= e < listing1.len() implies (#[trigger] listing1[e]) < d.len()
        && d.equivalent(Some(listing1[e]), Some(i)) by {
        if e < listing.len() {
            assert(listing1[e] == listing[e]);
        }
    }
}

/// A state at place `k` that is no member leaves the class found so far as
/// it is.
proof fn lemma_class_stays(
    d: DfaView,
    order: Seq<usize>,
    listing: Seq<usize>,
    places: Seq<int>,
    i: usize,
    k: int,
)
    requires
        class_so_far(d, order, listing, places, i, k),
        0 <= k < order.len(),
        !d.equivalent(Some(order[k]), Some(i)),
    ensures
        class_so_far(d, order, listing, places, i, k + 1),
{
}

/// No state stands twice in a listing order.
proof fn lemma_order_distinct(names: Seq<Seq<char>>, order: Seq<usize>)
    requires
        ordered(names, order),
    ensures
        order.no_duplicates(),
{
    assert forall|a: int, b: int|
        0 <= a < order.len() && 0 <= b < order.len() && a != b implies order[a] != order[b] by {
        if a < b {
            assert(listed_before(names, order[a] as int, order[b] as int));
        } else {
            assert(listed_before(names, order[b] as int, order[a] as int));
        }
    }
}

/// The first member of the class of a first member is that member itself.
proof fn lemma_first_is_its_own(d: DfaView, first: Seq<usize>, i: int)
    requires
        firsts(d, first),
        0 <= i < d.len(),
    ensures
        first[i] < d.len(),
        first[first[i] as int] == first[i],
{
    let r = first[i];
    let s = first[r as int];
    assert(d.first_of_class(r));
    assert(d.first_of_class(s));
    assert(d.equivalent(Some(s), Some(r)));
    d.lemma_equivalent_chain(Some(s), Some(r), Some(r));
    if s != r {
        assert(listed_before(d.names, r as int, s as int));
        assert(listed_before(d.names, s as int, r as int));
        lemma_listed_before_total(d.names, r as int, s as int);
    }
}

/// For every state, the first member of its class.
spec fn firsts(d: DfaView, first: Seq<usize>) -> bool {
    &&& first.len() == d.len()
    &&& forall|e: int|
        0 <= e < first.len() ==> {
            &&& d.first_of_class(#[trigger] first[e])
            &&& d.equivalent(Some(first[e]), Some(e as usize))
        }
}

/// The first members among the states below `upto` are numbered in
/// `number`, and `heads` holds them by their numbers.
spec fn numbered(first: Seq<usize>, heads: Seq<usize>, number: Seq<usize>, upto: int) -> bool {
    &&& number.len() == upto
    &&& heads.len() <= upto
    &&& upto <= first.len()
    &&& forall|c: int|
        0 <= c < heads.len() ==> {
            &&& (#[trigger] heads[c]) < upto
            &&& first[heads[c] as int] == heads[c]
            &&& number[heads[c] as int] == c
        }
    &&& forall|j: int|
        0 <= j < upto && first[j] == j ==> (#[trigger] number[j]) < heads.len()
            && heads[number[j] as int] == j
}

/// Every state below `upto` has the number of the first member of its class.
spec fn classed(
    first: Seq<usize>,
    heads: Seq<usize>,
    number: Seq<usize>,
    class_of: Seq<usize>,
    upto: int,
) -> bool {
    &&& class_of.len() == upto
    &&& forall|j: int|
        0 <= j < upto ==> {
            &&& (#[trigger] class_of[j]) == number[first[j] as int]
            &&& class_of[j] < heads.len()
            &&& heads[class_of[j] as int] == first[j]
        }
}

/// An automaton built class by class from the first members merges the first.
proof fn lemma_merges(
    m: DfaView,
    d: DfaView,
    class_of: Seq<usize>,
    first: Seq<usize>,
    heads: Seq<usize>,
    number: Seq<usize>,
)
    requires
        d.well_formed(),
        m.alphabet == d.alphabet,
        m.names.len() == heads.len(),
        m.accepting.len() == heads.len(),
        m.table.len() == heads.len(),
        m.start == class_of[d.start as int],
        firsts(d, first),
        numbered(first, heads, number, d.len() as int),
        classed(first, heads, number, class_of, d.len() as int),
        forall|c: int| 0 <= c < heads.len() ==> d.names_class(#[trigger] m.names[c], heads[c]),
        forall|c: int|
            0 <= c < heads.len() ==> (#[trigger] m.accepting[c]) == d.accepting[heads[c] as int],
        forall|c: int| 0 <= c < heads.len() ==> (#[trigger] m.table[c]).len() == d.alphabet.len(),
        forall|c: int, a: int|
            0 <= c < heads.len() && 0 <= a < d.alphabet.len() ==> (#[trigger] m.table[c][a])
                == shifted(class_of, d.table[heads[c] as int][a]),
    ensures
        m.merges(d, class_of),
{
    assert forall|c: usize| c < m.len() implies class_of.contains(c) by {
        let h = heads[c as int];
        assert(class_of[h as int] == number[first[h as int] as int]);
        assert(class_of[h as int] == c);
    }
    assert forall|i: usize, j: usize| i < d.len() && j < d.len() implies (class_of[i as int]
        == class_of[j as int] <==> #[trigger] d.equivalent(Some(i), Some(j))) by {
        let r = first[i as int];
        let s = first[j as int];
        d.lemma_equivalent_chain(Some(r), Some(i), Some(j));
        d.lemma_equivalent_chain(Some(s), Some(j), Some(i));
        d.lemma_equivalent_chain(Some(i), Some(j), Some(s));
        d.lemma_equivalent_chain(Some(i), Some(r), Some(j));
        d.lemma_equivalent_chain(Some(j), Some(s), Some(s));
        d.lemma_equivalent_chain(Some(i), Some(r), Some(r));
        if d.equivalent(Some(i), Some(j)) {
            d.lemma_equivalent_chain(Some(r), Some(j), Some(s));
            d.lemma_equivalent_chain(Some(r), Some(s), Some(r));
            if r != s {
                assert(d.equivalent(Some(s), Some(r)));
                assert(d.equivalent(Some(r), Some(s)));
                assert(listed_before(d.names, r as int, s as int));
                assert(listed_before(d.names, s as int, r as int));
                lemma_listed_before_total(d.names, r as int, s as int);
            }
        }
        if class_of[i as int] == class_of[j as int] {
            assert(r == s);
            d.lemma_equivalent_chain(Some(i), Some(r), Some(j));
        }
    }
    assert forall|i: int| 0 <= i < d.len() implies m.accepting[(#[trigger] class_of[i]) as int]
        == d.accepting[i] by {
        let r = first[i];
        let e = Seq::<Seq<char>>::empty();
        assert(d.accepts_from(Some(r), e) == d.accepts_from(Some(i as usize), e));
    }
    assert forall|i: usize, a: int|
        #![trigger d.first_of_class(i), d.table[i as int][a]]
        d.first_of_class(i) && 0 <= a < d.alphabet.len() implies m.table[class_of[i as int] as int][a]
        == shifted(class_of, d.table[i as int][a]) by {
        let r = first[i as int];
        d.lemma_equivalent_chain(Some(r), Some(i), Some(i));
        if r != i {
            assert(listed_before(d.names, r as int, i as int));
            assert(listed_before(d.names, i as int, r as int));
            lemma_listed_before_total(d.names, r as int, i as int);
        }
        assert(m.table[class_of[i as int] as int][a] == shifted(
            class_of,
            d.table[heads[class_of[i as int] as int] as int][a],
        ));
    }
    assert forall|i: usize| i < d.len() implies d.names_class(
        m.names[(#[trigger] class_of[i as int]) as int],
        i,
    ) by {
        let c = class_of[i as int];
        let r = heads[c as int];
        let name = m.names[c as int];
        assert(d.names_class(name, r));
        let listing = choose|listing: Seq<usize>| #[trigger]
            d.lists_class(listing, r) && name == joined(d.names_of(listing), class_separator());
        assert(d.lists_class(listing, i)) by {
            assert(d.equivalent(Some(r), Some(i)));
            assert forall|k: int| 0 <= k < listing.len() implies (#[trigger] listing[k]) < d.len()
                && d.equivalent(Some(listing[k]), Some(i)) by {
                d.lemma_equivalent_chain(Some(listing[k]), Some(r), Some(i));
            }
            assert forall|j: usize|
                j < d.len() && #[trigger] d.equivalent(Some(j), Some(i)) implies listing.contains(
                j,
            ) by {
                d.lemma_equivalent_chain(Some(r), Some(i), Some(i));
                d.lemma_equivalent_chain(Some(j), Some(i), Some(r));
                assert(d.equivalent(Some(j), Some(r)));
            }
        }
    }
}

} // verus!
