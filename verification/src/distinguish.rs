//! Which states of a deterministic automaton can be told apart by a word.
//!
//! The table is filled backwards from the pairs that differ in being final:
//! a pair is marked once some symbol leads it to a pair that is already
//! marked. The dead state takes part as one more state, numbered after the
//! last one, so that a state from which a final state can be reached is told
//! from one that has no way to go.

use crate::dfa::{Dfa, DfaView};
use std::collections::VecDeque;
use vstd::prelude::*;
use vstd::set_lib::{lemma_int_range, lemma_len_subset, set_int_range};

verus! {

impl DfaView {
    /// The state numbered `p`. The number after the last state, and every
    /// other number that names no state, stands for the dead state.
    pub open spec fn state_at(self, p: int) -> Option<usize> {
        if 0 <= p < self.len() {
            Some(p as usize)
        } else {
            None
        }
    }

    /// The number of the state that `p` goes to on the `a`-th symbol.
    pub open spec fn successor(self, p: int, a: int) -> int {
        if 0 <= p < self.len() {
            match self.table[p][a] {
                Some(j) => j as int,
                None => self.len() as int,
            }
        } else {
            self.len() as int
        }
    }

    /// Stepping on the `a`-th symbol is going to the successor.
    pub proof fn lemma_successor(self, p: int, a: int)
        requires
            self.well_formed(),
            0 <= p <= self.len(),
            0 <= a < self.alphabet.len(),
        ensures
            0 <= self.successor(p, a) <= self.len(),
            self.step(self.state_at(p), self.alphabet[a]) == self.state_at(self.successor(p, a)),
    {
        if p < self.len() {
            self.lemma_step_symbol(p as usize, a);
            assert(self.leads_inside(self.table[p][a]));
        }
    }

    /// A pair that some symbol leads to a pair told apart by a word is told
    /// apart by a word itself.
    pub proof fn lemma_told_apart_before(self, p: int, q: int, pa: int, qa: int, a: int)
        requires
            self.well_formed(),
            0 <= pa <= self.len(),
            0 <= qa <= self.len(),
            0 <= a < self.alphabet.len(),
            self.successor(pa, a) == p,
            self.successor(qa, a) == q,
            !self.equivalent(self.state_at(p), self.state_at(q)),
        ensures
            !self.equivalent(self.state_at(pa), self.state_at(qa)),
    {
        let w = choose|w: Seq<Seq<char>>|
            self.accepts_from(self.state_at(p), w) != self.accepts_from(self.state_at(q), w);
        let x = self.alphabet[a];
        self.lemma_successor(pa, a);
        self.lemma_successor(qa, a);
        self.lemma_read_first(self.state_at(pa), x, w);
        self.lemma_read_first(self.state_at(qa), x, w);
        assert(self.accepts_from(self.state_at(pa), seq![x] + w) != self.accepts_from(
            self.state_at(qa),
            seq![x] + w,
        ));
    }

    /// States of which one is final and the other is not are told apart by
    /// the empty word.
    pub proof fn lemma_told_apart_at_once(self, p: int, q: int)
        requires
            self.is_accepting(self.state_at(p)) != self.is_accepting(self.state_at(q)),
        ensures
            !self.equivalent(self.state_at(p), self.state_at(q)),
    {
        let e = Seq::<Seq<char>>::empty();
        assert(self.accepts_from(self.state_at(p), e) != self.accepts_from(self.state_at(q), e));
    }
}

/// The table has a row and a column for every state and for the dead state.
pub open spec fn square(marked: Vec<Vec<bool>>, size: int) -> bool {
    &&& marked.len() == size
    &&& forall|p: int| 0 <= p < size ==> (#[trigger] marked[p]).len() == size
}

/// The table marks exactly the pairs of states that some word tells apart.
pub open spec fn marks_told_apart(d: DfaView, marked: Vec<Vec<bool>>) -> bool {
    &&& square(marked, d.len() as int + 1)
    &&& forall|p: int, q: int|
        0 <= p <= d.len() && 0 <= q <= d.len() ==> (#[trigger] marked[p][q] <==> !d.equivalent(
            d.state_at(p),
            d.state_at(q),
        ))
}

/// Every marked pair is told apart by some word.
spec fn sound(d: DfaView, marked: Vec<Vec<bool>>) -> bool {
    forall|p: int, q: int|
        0 <= p <= d.len() && 0 <= q <= d.len() && #[trigger] marked[p][q] ==> !d.equivalent(
            d.state_at(p),
            d.state_at(q),
        )
}

/// The table marks a pair in both orders or in none.
spec fn symmetric(marked: Vec<Vec<bool>>, size: int) -> bool {
    forall|p: int, q: int|
        0 <= p < size && 0 <= q < size ==> #[trigger] marked[p][q] == marked[q][p]
}

/// Every pair of which one state is final and the other is not is marked.
spec fn seeded(d: DfaView, marked: Vec<Vec<bool>>) -> bool {
    seeded_upto(d, marked, d.len() as int + 1)
}

/// One of the two states is final and the other is not.
spec fn differ(d: DfaView, p: int, q: int) -> bool {
    d.is_accepting(d.state_at(p)) != d.is_accepting(d.state_at(q))
}

/// Every pair with a first state below `upto` of which one state is final
/// and the other is not is marked.
spec fn seeded_upto(d: DfaView, marked: Vec<Vec<bool>>, upto: int) -> bool {
    forall|p: int, q: int|
        0 <= p < upto && 0 <= q <= d.len() && #[trigger] differ(d, p, q) ==> marked[p][q]
}

/// Every pair of `p` and a state below `upto` of which one state is final
/// and the other is not is marked.
spec fn seeded_row(d: DfaView, marked: Vec<Vec<bool>>, p: int, upto: int) -> bool {
    forall|q: int| 0 <= q < upto && #[trigger] differ(d, p, q) ==> marked[p][q]
}

/// What the first table marks the second marks too.
spec fn grows(before: Vec<Vec<bool>>, after: Vec<Vec<bool>>, size: int) -> bool {
    forall|p: int, q: int|
        0 <= p < size && 0 <= q < size && #[trigger] before[p][q] ==> after[p][q]
}

/// Every pair that a symbol leads to a marked pair is marked.
spec fn closed(d: DfaView, marked: Vec<Vec<bool>>) -> bool {
    forall|p: int, q: int, a: int|
        #![trigger d.successor(p, a), d.successor(q, a)]
        0 <= p <= d.len() && 0 <= q <= d.len() && 0 <= a < d.alphabet.len()
            && marked[d.successor(p, a)][d.successor(q, a)] ==> marked[p][q]
}

/// The pair stands in the worklist, in one order or the other.
spec fn listed(work: Seq<(usize, usize)>, p: int, q: int) -> bool {
    exists|k: int|
        0 <= k < work.len() && ((#[trigger] work[k]) == (p as usize, q as usize) || work[k] == (
            q as usize,
            p as usize,
        ))
}

/// Every pair in the worklist is a marked pair of numbers of the table.
spec fn work_marked(work: Seq<(usize, usize)>, marked: Vec<Vec<bool>>, size: int) -> bool {
    forall|k: int|
        0 <= k < work.len() ==> {
            &&& (#[trigger] work[k]).0 < size
            &&& work[k].1 < size
            &&& marked[work[k].0 as int][work[k].1 as int]
        }
}

/// What holds of the table and the worklist at every moment: the table is
/// square and symmetric and marks only pairs that a word tells apart, and the
/// worklist holds every marked pair once.
spec fn filled(d: DfaView, marked: Vec<Vec<bool>>, work: Seq<(usize, usize)>) -> bool {
    &&& square(marked, d.len() as int + 1)
    &&& symmetric(marked, d.len() as int + 1)
    &&& sound(d, marked)
    &&& work_marked(work, marked, d.len() as int + 1)
    &&& marked_listed(work, marked, d.len() as int + 1)
    &&& work.no_duplicates()
}

/// Every marked pair stands in the worklist.
spec fn marked_listed(work: Seq<(usize, usize)>, marked: Vec<Vec<bool>>, size: int) -> bool {
    forall|p: int, q: int|
        0 <= p < size && 0 <= q < size && #[trigger] marked[p][q] ==> listed(work, p, q)
}

/// All pairs that one of the first `upto` symbols leads to the pair `(p, q)`
/// are marked.
spec fn done_pair(d: DfaView, marked: Vec<Vec<bool>>, p: int, q: int, upto: int) -> bool {
    forall|pa: int, qa: int, a: int|
        #![trigger d.successor(pa, a), d.successor(qa, a)]
        0 <= a < upto && 0 <= pa <= d.len() && 0 <= qa <= d.len() && d.successor(pa, a) == p
            && d.successor(qa, a) == q ==> marked[pa][qa]
}

/// The first `upto` pairs of the worklist have been followed backwards.
spec fn done_work(d: DfaView, marked: Vec<Vec<bool>>, work: Seq<(usize, usize)>, upto: int) -> bool {
    forall|k: int|
        0 <= k < upto ==> done_pair(
            d,
            marked,
            (#[trigger] work[k]).0 as int,
            work[k].1 as int,
            d.alphabet.len() as int,
        )
}

/// For every symbol and every state, the states that go to it on the symbol.
spec fn lists_predecessors(d: DfaView, rev: Vec<Vec<Vec<usize>>>) -> bool {
    &&& rev.len() == d.alphabet.len()
    &&& forall|a: int| 0 <= a < rev.len() ==> lists_predecessors_on(d, #[trigger] rev[a], a, d.len() as int + 1)
}

/// `rows[q]` holds states that go to `q` on the `a`-th symbol, and every
/// state below `upto` stands in the row of the state it goes to.
spec fn lists_predecessors_on(d: DfaView, rows: Vec<Vec<usize>>, a: int, upto: int) -> bool {
    &&& rows.len() == d.len() + 1
    &&& forall|q: int, k: int|
        0 <= q <= d.len() && 0 <= k < rows[q].len() ==> {
            &&& 0 <= (#[trigger] rows[q][k]) <= d.len()
            &&& d.successor(rows[q][k] as int, a) == q
        }
    &&& forall|p: int|
        0 <= p < upto ==> rows[#[trigger] d.successor(p, a)]@.contains(p as usize)
}

/// A table in which nothing has been marked and nothing was left out is the
/// relation of being told apart.
proof fn lemma_unmarked_equivalent(d: DfaView, marked: Vec<Vec<bool>>, p: int, q: int, w: Seq<Seq<char>>)
    requires
        d.well_formed(),
        square(marked, d.len() as int + 1),
        seeded(d, marked),
        closed(d, marked),
        0 <= p <= d.len(),
        0 <= q <= d.len(),
        !marked[p][q],
    ensures
        d.accepts_from(d.state_at(p), w) == d.accepts_from(d.state_at(q), w),
    decreases w.len(),
{
    if w.len() == 0 {
        assert(!differ(d, p, q));
    } else {
        let x = w[0];
        if d.alphabet.contains(x) {
            let a = d.alphabet.index_of(x);
            d.lemma_successor(p, a);
            d.lemma_successor(q, a);
            lemma_unmarked_equivalent(
                d,
                marked,
                d.successor(p, a),
                d.successor(q, a),
                w.drop_first(),
            );
        } else {
            d.lemma_dead_rejects(w.drop_first());
        }
    }
}

/// Different numbers below a bound are at most as many as the bound.
pub proof fn lemma_distinct_below(codes: Seq<int>, bound: int)
    requires
        0 <= bound,
        codes.no_duplicates(),
        forall|k: int| 0 <= k < codes.len() ==> 0 <= #[trigger] codes[k] < bound,
    ensures
        codes.len() <= bound,
{
    codes.unique_seq_to_set();
    if codes.len() > 0 {
        assert(0 <= codes[0] < bound);
        lemma_int_range(0, bound);
        assert(codes.to_set().subset_of(set_int_range(0, bound))) by {
            assert forall|c: int| codes.to_set().contains(c) implies set_int_range(
                0,
                bound,
            ).contains(c) by {
                let k = choose|k: int| 0 <= k < codes.len() && codes[k] == c;
                assert(0 <= codes[k] < bound);
            }
        }
        lemma_len_subset(codes.to_set(), set_int_range(0, bound));
    }
}

/// Different pairs of numbers below `size` are at most `size * size`.
proof fn lemma_pairs_bounded(work: Seq<(usize, usize)>, size: int)
    requires
        work.no_duplicates(),
        forall|k: int| 0 <= k < work.len() ==> (#[trigger] work[k]).0 < size && work[k].1 < size,
    ensures
        work.len() <= size * size,
{
    assert(0 <= size * size) by (nonlinear_arith);
    let codes = Seq::new(work.len(), |k: int| work[k].0 * size + work[k].1);
    assert forall|k: int| 0 <= k < codes.len() implies 0 <= #[trigger] codes[k] < size * size by {
        let p = work[k].0 as int;
        let q = work[k].1 as int;
        assert(0 <= p * size + q < size * size) by (nonlinear_arith)
            requires
                0 <= p < size,
                0 <= q < size,
        ;
    }
    assert forall|i: int, j: int|
        0 <= i < codes.len() && 0 <= j < codes.len() && i != j implies codes[i] != codes[j] by {
        let p = work[i].0 as int;
        let q = work[i].1 as int;
        let r = work[j].0 as int;
        let s = work[j].1 as int;
        assert(work[i] != work[j]);
        assert(p * size + q == r * size + s ==> p == r && q == s) by (nonlinear_arith)
            requires
                0 <= p < size,
                0 <= q < size,
                0 <= r < size,
                0 <= s < size,
        ;
    }
    lemma_distinct_below(codes, size * size);
}

/// The marked pairs that wait to be followed backwards. For the proof it
/// remembers every pair that was ever put on it, in the order of putting.
struct Worklist {
    queue: VecDeque<(usize, usize)>,
    seen: Ghost<Seq<(usize, usize)>>,
}

impl View for Worklist {
    type V = Seq<(usize, usize)>;

    closed spec fn view(&self) -> Seq<(usize, usize)> {
        self.seen@
    }
}

impl Worklist {
    /// The pairs that wait are those put after the first `taken`.
    spec fn waiting_from(&self, taken: int) -> bool {
        0 <= taken <= self@.len() && self.queue@ == self@.skip(taken)
    }

    /// A worklist on which nothing was put.
    fn new() -> (work: Self)
        ensures
            work@ == Seq::<(usize, usize)>::empty(),
            work.waiting_from(0),
    {
        let work = Worklist { queue: VecDeque::new(), seen: Ghost(Seq::empty()) };
        assert(work.queue@ =~= work@.skip(0));
        work
    }

    /// Whether no pair waits.
    fn is_empty(&self) -> (r: bool)
        ensures
            r == (self.queue@.len() == 0),
    {
        self.queue.len() == 0
    }

    /// Puts a pair at the end.
    fn put(&mut self, pair: (usize, usize), Ghost(taken): Ghost<int>)
        requires
            old(self).waiting_from(taken),
        ensures
            final(self)@ == old(self)@.push(pair),
            final(self).waiting_from(taken),
    {
        self.queue.push_back(pair);
        self.seen = Ghost(self.seen@.push(pair));
        assert(self.queue@ =~= self@.skip(taken));
    }

    /// Takes the pair that has waited longest.
    fn take(&mut self, Ghost(taken): Ghost<int>) -> (pair: (usize, usize))
        requires
            old(self).waiting_from(taken),
            old(self).queue@.len() > 0,
        ensures
            final(self)@ == old(self)@,
            taken < final(self)@.len(),
            pair == final(self)@[taken],
            final(self).waiting_from(taken + 1),
    {
        let first = self.queue.pop_front();
        assert(self.queue@ =~= self@.skip(taken + 1));
        first.unwrap()
    }
}

/// A table of the given size with nothing marked.
fn blank(n: usize) -> (marked: Vec<Vec<bool>>)
    ensures
        square(marked, n + 1),
        forall|p: int, q: int| 0 <= p <= n && 0 <= q <= n ==> !(#[trigger] marked[p][q]),
{
    let mut row: Vec<bool> = Vec::new();
    let mut i: usize = 0;
    while i < n
        invariant
            i <= n,
            row.len() == i,
            forall|q: int| 0 <= q < i ==> !(#[trigger] row[q]),
        decreases n - i,
    {
        row.push(false);
        i += 1;
    }
    row.push(false);
    let mut marked: Vec<Vec<bool>> = Vec::new();
    let mut i: usize = 0;
    while i < n
        invariant
            i <= n,
            marked.len() == i,
            row.len() == n + 1,
            forall|q: int| 0 <= q <= n ==> !(#[trigger] row[q]),
            forall|p: int| 0 <= p < i ==> (#[trigger] marked[p])@ == row@,
        decreases n - i,
    {
        marked.push(row.clone());
        i += 1;
    }
    marked.push(row);
    marked
}

impl Dfa {
    /// Whether the state numbered `p` is final; the dead state is not.
    fn final_at(&self, p: usize) -> (r: bool)
        requires
            p <= self@.len(),
        ensures
            r == self@.is_accepting(self@.state_at(p as int)),
    {
        p < self.len() && self.is_final(p)
    }

    /// The number of the state that `p` goes to on the `a`-th symbol.
    fn successor(&self, p: usize, a: usize) -> (q: usize)
        requires
            p <= self@.len(),
            a < self@.alphabet.len(),
        ensures
            q == self@.successor(p as int, a as int),
            q <= self@.len(),
    {
        if p < self.len() {
            match self.target(p, a) {
                Some(j) => j,
                None => self.len(),
            }
        } else {
            self.len()
        }
    }

    /// The states that go to each state on the `a`-th symbol. The dead state
    /// has a row too, and stands in its own row.
    fn predecessors_on(&self, a: usize) -> (rows: Vec<Vec<usize>>)
        requires
            a < self@.alphabet.len(),
        ensures
            lists_predecessors_on(self@, rows, a as int, self@.len() as int + 1),
    {
        proof {
            use_type_invariant(self);
        }
        let n = self.len();
        let mut rows: Vec<Vec<usize>> = Vec::new();
        let mut q: usize = 0;
        while q < n
            invariant
                q <= n,
                rows.len() == q,
                forall|r: int| 0 <= r < q ==> (#[trigger] rows[r]).len() == 0,
            decreases n - q,
        {
            rows.push(Vec::new());
            q += 1;
        }
        rows.push(Vec::new());
        let size = rows.len();
        let mut p: usize = 0;
        while p < size
            invariant
                p <= size,
                size == n + 1,
                n == self@.len(),
                a < self@.alphabet.len(),
                self@.well_formed(),
                lists_predecessors_on(self@, rows, a as int, p as int),
            decreases size - p,
        {
            let q = self.successor(p, a);
            let ghost before = rows;
            rows[q].push(p);
            proof {
                let d = self@;
                assert forall|s: int| 0 <= s < p + 1 implies rows[#[trigger] d.successor(
                    s,
                    a as int,
                )]@.contains(s as usize) by {
                    d.lemma_successor(s, a as int);
                    let t = d.successor(s, a as int);
                    if s < p {
                        assert(before[t]@.contains(s as usize));
                        let k = choose|k: int|
                            0 <= k < before[t]@.len() && before[t]@[k] == s as usize;
                        assert(rows[t]@[k] == s as usize);
                    } else {
                        assert(rows[q as int]@[before[q as int]@.len() as int] == p);
                    }
                }
                assert forall|r: int, k: int| 0 <= r <= n && 0 <= k < rows[r].len() implies 0 <= (
                #[trigger] rows[r][k]) <= n && d.successor(rows[r][k] as int, a as int) == r by {
                    if r == q && k == before[r].len() {
                    } else {
                        assert(rows[r][k] == before[r][k]);
                    }
                }
            }
            p += 1;
        }
        rows
    }

    /// The transitions turned round: for every symbol and every state, the
    /// states that go to it on that symbol.
    fn predecessors(&self) -> (rev: Vec<Vec<Vec<usize>>>)
        ensures
            lists_predecessors(self@, rev),
    {
        let m = self.symbol_count();
        let mut rev: Vec<Vec<Vec<usize>>> = Vec::new();
        let mut a: usize = 0;
        while a < m
            invariant
                a <= m,
                m == self@.alphabet.len(),
                rev.len() == a,
                forall|b: int|
                    0 <= b < a ==> lists_predecessors_on(
                        self@,
                        #[trigger] rev[b],
                        b,
                        self@.len() as int + 1,
                    ),
            decreases m - a,
        {
            let rows = self.predecessors_on(a);
            rev.push(rows);
            a += 1;
        }
        rev
    }

    /// The table of the pairs of states that some word tells apart, the dead
    /// state included as the state numbered after the last.
    pub(crate) fn distinguish(&self) -> (marked: Vec<Vec<bool>>)
        ensures
            marks_told_apart(self@, marked),
    {
        proof {
            use_type_invariant(self);
        }
        let n = self.len();
        let m = self.symbol_count();
        let rev = self.predecessors();
        let mut marked = blank(n);
        let size = marked.len();
        let mut work = Worklist::new();
        // The pairs that differ in being final.
        let mut p: usize = 0;
        while p < size
            invariant
                p <= size,
                size == n + 1,
                n == self@.len(),
                self@.well_formed(),
                work.waiting_from(0),
                filled(self@, marked, work@),
                seeded_upto(self@, marked, p as int),
            decreases size - p,
        {
            let mut q: usize = 0;
            while q < size
                invariant
                    p < size,
                    q <= size,
                    size == n + 1,
                    n == self@.len(),
                    self@.well_formed(),
                    work.waiting_from(0),
                    filled(self@, marked, work@),
                    seeded_upto(self@, marked, p as int),
                    seeded_row(self@, marked, p as int, q as int),
                decreases size - q,
            {
                if self.final_at(p) != self.final_at(q) && !marked[p][q] {
                    proof {
                        self@.lemma_told_apart_at_once(p as int, q as int);
                        self@.lemma_told_apart_at_once(q as int, p as int);
                    }
                    self.mark(&mut marked, &mut work, Ghost(0), p, q);
                }
                q += 1;
            }
            p += 1;
        }
        // Backwards from every marked pair.
        let ghost mut taken: int = 0;
        while !work.is_empty()
            invariant
                size == n + 1,
                n == self@.len(),
                m == self@.alphabet.len(),
                self@.well_formed(),
                lists_predecessors(self@, rev),
                work.waiting_from(taken),
                filled(self@, marked, work@),
                seeded(self@, marked),
                done_work(self@, marked, work@, taken),
            decreases size * size - work@.len(), work@.len() - taken,
        {
            let ghost len_before = work@.len();
            let ghost idx = taken;
            proof {
                lemma_pairs_bounded(work@, size as int);
            }
            let pair = work.take(Ghost(idx));
            let mut a: usize = 0;
            while a < m
                invariant
                    a <= m,
                    0 <= idx < work@.len(),
                    len_before <= work@.len(),
                    pair == work@[idx],
                    size == n + 1,
                    n == self@.len(),
                    m == self@.alphabet.len(),
                    self@.well_formed(),
                    lists_predecessors(self@, rev),
                    work.waiting_from(idx + 1),
                    filled(self@, marked, work@),
                    seeded(self@, marked),
                    done_work(self@, marked, work@, idx),
                    done_pair(self@, marked, pair.0 as int, pair.1 as int, a as int),
                decreases m - a,
            {
                self.follow_back(&rev, &mut marked, &mut work, Ghost(idx), pair.0, pair.1, a);
                a += 1;
            }
            proof {
                lemma_pairs_bounded(work@, size as int);
                taken = idx + 1;
            }
        }
        proof {
            let d = self@;
            assert(closed(d, marked)) by {
                assert forall|p: int, q: int, a: int|
                    #![trigger d.successor(p, a), d.successor(q, a)]
                    0 <= p <= d.len() && 0 <= q <= d.len() && 0 <= a < d.alphabet.len()
                        && marked[d.successor(p, a)][d.successor(q, a)] implies marked[p][q] by {
                    let pb = d.successor(p, a);
                    let qb = d.successor(q, a);
                    d.lemma_successor(p, a);
                    d.lemma_successor(q, a);
                    assert(listed(work@, pb, qb));
                    let k = choose|k: int|
                        0 <= k < work@.len() && ((#[trigger] work@[k]) == (pb as usize, qb as usize)
                            || work@[k] == (qb as usize, pb as usize));
                    assert(done_pair(
                        d,
                        marked,
                        work@[k].0 as int,
                        work@[k].1 as int,
                        d.alphabet.len() as int,
                    ));
                    if work@[k] == (pb as usize, qb as usize) {
                        assert(marked[p][q]);
                    } else {
                        assert(marked[q][p]);
                    }
                }
            }
            assert forall|p: int, q: int| 0 <= p <= d.len() && 0 <= q <= d.len() implies (
            #[trigger] marked[p][q] <==> !d.equivalent(d.state_at(p), d.state_at(q))) by {
                if !marked[p][q] {
                    assert forall|w: Seq<Seq<char>>|
                        d.accepts_from(d.state_at(p), w) == d.accepts_from(d.state_at(q), w) by {
                        lemma_unmarked_equivalent(d, marked, p, q, w);
                    }
                }
            }
        }
        marked
    }

    /// Marks the pair `(p, q)` in both orders and puts it on the worklist.
    fn mark(
        &self,
        marked: &mut Vec<Vec<bool>>,
        work: &mut Worklist,
        Ghost(taken): Ghost<int>,
        p: usize,
        q: usize,
    )
        requires
            old(work).waiting_from(taken),
            p <= self@.len(),
            q <= self@.len(),
            !self@.equivalent(self@.state_at(p as int), self@.state_at(q as int)),
            !self@.equivalent(self@.state_at(q as int), self@.state_at(p as int)),
            !old(marked)[p as int][q as int],
            filled(self@, *old(marked), old(work)@),
        ensures
            final(work).waiting_from(taken),
            filled(self@, *final(marked), final(work)@),
            final(work)@ == old(work)@.push((p, q)),
            final(marked)[p as int][q as int],
            grows(*old(marked), *final(marked), self@.len() as int + 1),
    {
        let ghost size: int = self@.len() as int + 1;
        let ghost marked0 = *marked;
        let ghost work0 = work@;
        marked[p][q] = true;
        marked[q][p] = true;
        work.put((p, q), Ghost(taken));
        proof {
            assert forall|pa: int, qa: int| 0 <= pa < size && 0 <= qa < size implies (
            #[trigger] marked[pa][qa]) == (marked0[pa][qa] || (pa == p && qa == q) || (pa == q
                && qa == p)) by {}
            assert forall|pa: int, qa: int|
                0 <= pa < size && 0 <= qa < size && #[trigger] marked[pa][qa] implies listed(
                work@,
                pa,
                qa,
            ) by {
                if marked0[pa][qa] {
                    assert(listed(work0, pa, qa));
                    let k = choose|k: int|
                        0 <= k < work0.len() && ((#[trigger] work0[k]) == (pa as usize, qa as usize)
                            || work0[k] == (qa as usize, pa as usize));
                    assert(work@[k] == work0[k]);
                } else {
                    assert(work@[work0.len() as int] == (p, q));
                }
            }
            assert forall|k: int| 0 <= k < work@.len() implies (#[trigger] work@[k]).0 < size
                && work@[k].1 < size && marked[work@[k].0 as int][work@[k].1 as int] by {
                if k < work0.len() {
                    assert(work@[k] == work0[k]);
                    assert(marked0[work0[k].0 as int][work0[k].1 as int]);
                }
            }
            assert forall|i: int, j: int|
                0 <= i < work@.len() && 0 <= j < work@.len() && i != j implies work@[i]
                != work@[j] by {
                if i < work0.len() && j < work0.len() {
                    assert(work0[i] != work0[j]);
                } else if i < work0.len() {
                    assert(marked0[work0[i].0 as int][work0[i].1 as int]);
                } else {
                    assert(marked0[work0[j].0 as int][work0[j].1 as int]);
                }
            }
        }
    }

    /// Marks every pair that the `a`-th symbol leads to the pair `(p, q)`,
    /// which was taken from the worklist as its `idx`-th pair.
    fn follow_back(
        &self,
        rev: &Vec<Vec<Vec<usize>>>,
        marked: &mut Vec<Vec<bool>>,
        work: &mut Worklist,
        Ghost(idx): Ghost<int>,
        p: usize,
        q: usize,
        a: usize,
    )
        requires
            self@.well_formed(),
            0 <= idx < old(work)@.len(),
            old(work)@[idx] == (p, q),
            old(work).waiting_from(idx + 1),
            a < self@.alphabet.len(),
            lists_predecessors(self@, *rev),
            filled(self@, *old(marked), old(work)@),
            seeded(self@, *old(marked)),
            done_work(self@, *old(marked), old(work)@, idx),
            done_pair(
                self@,
                *old(marked),
                old(work)@[idx].0 as int,
                old(work)@[idx].1 as int,
                a as int,
            ),
        ensures
            final(work).waiting_from(idx + 1),
            old(work)@.len() <= final(work)@.len(),
            final(work)@[idx] == old(work)@[idx],
            filled(self@, *final(marked), final(work)@),
            seeded(self@, *final(marked)),
            done_work(self@, *final(marked), final(work)@, idx),
            done_pair(
                self@,
                *final(marked),
                old(work)@[idx].0 as int,
                old(work)@[idx].1 as int,
                a + 1,
            ),
    {
        let ghost d = self@;
        let ghost size: int = self@.len() as int + 1;
        let ghost marked0 = *marked;
        let ghost work0 = work@;
        assert(work@[idx].0 < size && work@[idx].1 < size);
        assert(lists_predecessors_on(d, rev[a as int], a as int, size));
        let from_p = &rev[a][p];
        let from_q = &rev[a][q];
        let mut i: usize = 0;
        while i < from_p.len()
            invariant
                i <= from_p.len(),
                d == self@,
                size == d.len() + 1,
                d.well_formed(),
                a < d.alphabet.len(),
                p < size,
                q < size,
                0 <= idx < work@.len(),
                work.waiting_from(idx + 1),
                work0.len() <= work@.len(),
                work@[idx] == (p, q),
                marked[p as int][q as int],
                rev.len() == d.alphabet.len(),
                rev[a as int].len() == size,
                *from_p == rev[a as int][p as int],
                *from_q == rev[a as int][q as int],
                lists_predecessors_on(d, rev[a as int], a as int, size),
                filled(d, *marked, work@),
                forall|k: int| 0 <= k < work0.len() ==> work@[k] == work0[k],
                grows(marked0, *marked, size),
                forall|i1: int, j1: int|
                    0 <= i1 < i && 0 <= j1 < from_q.len() ==> marked[#[trigger] from_p[i1] as int][#[trigger] from_q[j1] as int],
            decreases from_p.len() - i,
        {
            let pa = from_p[i];
            let mut j: usize = 0;
            while j < from_q.len()
                invariant
                    i < from_p.len(),
                    j <= from_q.len(),
                    pa == from_p[i as int],
                    d == self@,
                    size == d.len() + 1,
                    d.well_formed(),
                    a < d.alphabet.len(),
                    p < size,
                    q < size,
                    0 <= idx < work@.len(),
                    work.waiting_from(idx + 1),
                    work0.len() <= work@.len(),
                    work@[idx] == (p, q),
                    marked[p as int][q as int],
                    rev.len() == d.alphabet.len(),
                    rev[a as int].len() == size,
                    *from_p == rev[a as int][p as int],
                    *from_q == rev[a as int][q as int],
                    lists_predecessors_on(d, rev[a as int], a as int, size),
                    filled(d, *marked, work@),
                    forall|k: int| 0 <= k < work0.len() ==> work@[k] == work0[k],
                    grows(marked0, *marked, size),
                    forall|i1: int, j1: int|
                        0 <= i1 < i && 0 <= j1 < from_q.len() ==> marked[#[trigger] from_p[i1] as int][#[trigger] from_q[j1] as int],
                    forall|j1: int|
                        0 <= j1 < j ==> marked[pa as int][#[trigger] from_q[j1] as int],
                decreases from_q.len() - j,
            {
                let qa = from_q[j];
                assert(0 <= rev[a as int][p as int][i as int] <= d.len());
                assert(0 <= rev[a as int][q as int][j as int] <= d.len());
                if !marked[pa][qa] {
                    let ghost marked1 = *marked;
                    proof {
                        assert(!d.equivalent(d.state_at(p as int), d.state_at(q as int)));
                        d.lemma_told_apart_before(p as int, q as int, pa as int, qa as int, a as int);
                        assert(marked[q as int][p as int]);
                        assert(!d.equivalent(d.state_at(q as int), d.state_at(p as int)));
                        d.lemma_told_apart_before(q as int, p as int, qa as int, pa as int, a as int);
                    }
                    self.mark(marked, work, Ghost(idx + 1), pa, qa);
                    proof {
                        assert(grows(marked0, *marked, size)) by {
                            assert forall|pb: int, qb: int|
                                0 <= pb < size && 0 <= qb < size
                                    && #[trigger] marked0[pb][qb] implies marked[pb][qb] by {
                                assert(marked1[pb][qb]);
                            }
                        }
                        assert forall|i1: int, j1: int|
                            0 <= i1 < i && 0 <= j1 < from_q.len() implies marked[#[trigger] from_p[i1] as int][#[trigger] from_q[j1] as int] by {
                            assert(0 <= rev[a as int][p as int][i1] <= d.len());
                            assert(0 <= rev[a as int][q as int][j1] <= d.len());
                            assert(marked1[from_p[i1] as int][from_q[j1] as int]);
                        }
                        assert forall|j1: int| 0 <= j1 < j implies marked[pa as int][#[trigger] from_q[j1] as int] by {
                            assert(0 <= rev[a as int][q as int][j1] <= d.len());
                            assert(marked1[pa as int][from_q[j1] as int]);
                        }
                        assert(marked1[p as int][q as int]);
                    }
                }
                j += 1;
            }
            i += 1;
        }
        proof {
            assert(done_pair(d, *marked, p as int, q as int, a + 1)) by {
                assert forall|pa: int, qa: int, b: int|
                    #![trigger d.successor(pa, b), d.successor(qa, b)]
                    0 <= b < a + 1 && 0 <= pa <= d.len() && 0 <= qa <= d.len() && d.successor(
                        pa,
                        b,
                    ) == p && d.successor(qa, b) == q implies marked[pa][qa] by {
                    if b < a {
                        assert(marked0[pa][qa]);
                    } else {
                        assert(rev[a as int][p as int]@.contains(pa as usize));
                        assert(rev[a as int][q as int]@.contains(qa as usize));
                        let i1 = choose|i1: int|
                            0 <= i1 < from_p@.len() && from_p@[i1] == pa as usize;
                        let j1 = choose|j1: int|
                            0 <= j1 < from_q@.len() && from_q@[j1] == qa as usize;
                        assert(marked[from_p[i1] as int][from_q[j1] as int]);
                    }
                }
            }
            assert(done_work(d, *marked, work@, idx)) by {
                assert forall|k: int| 0 <= k < idx implies done_pair(
                    d,
                    *marked,
                    (#[trigger] work@[k]).0 as int,
                    work@[k].1 as int,
                    d.alphabet.len() as int,
                ) by {
                    assert(work@[k] == work0[k]);
                    let pk = work0[k].0 as int;
                    let qk = work0[k].1 as int;
                    assert(done_pair(d, marked0, pk, qk, d.alphabet.len() as int));
                    assert forall|pa: int, qa: int, b: int|
                        #![trigger d.successor(pa, b), d.successor(qa, b)]
                        0 <= b < d.alphabet.len() && 0 <= pa <= d.len() && 0 <= qa <= d.len()
                            && d.successor(pa, b) == pk && d.successor(qa, b)
                            == qk implies marked[pa][qa] by {
                        assert(marked0[pa][qa]);
                    }
                }
            }
            assert(seeded(d, *marked)) by {
                assert forall|pa: int, qa: int|
                    0 <= pa < d.len() + 1 && 0 <= qa <= d.len() && #[trigger] differ(
                        d,
                        pa,
                        qa,
                    ) implies marked[pa][qa] by {
                    assert(marked0[pa][qa]);
                }
            }
        }
    }
}

} // verus!
