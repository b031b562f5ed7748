//! Names of states and symbols: how they are ordered, looked up and joined
//! into the display names of composite states.

use itertools::Itertools;
use vstd::prelude::*;
use vstd::relations::{sorted_by, total_ordering};
use vstd::seq_lib::{group_to_multiset_ensures, lemma_sorted_unique};
use vstd::utf8::{encode_utf8, encode_utf8_decode_utf8};

verus! {

/// `a` comes no later than `b` when the two byte strings are compared byte by
/// byte: `a` is a prefix of `b`, or `a` holds the smaller byte at the first
/// place where they differ.
pub open spec fn bytes_le(a: Seq<u8>, b: Seq<u8>) -> bool {
    exists|k: int| #[trigger]
        common_prefix(a, b, k) && (k == a.len() || (k < b.len() && a[k] < b[k]))
}

/// The first `k` bytes of `a` and `b` are the same.
pub open spec fn common_prefix(a: Seq<u8>, b: Seq<u8>, k: int) -> bool {
    &&& 0 <= k <= a.len()
    &&& k <= b.len()
    &&& forall|i: int| 0 <= i < k ==> a[i] == b[i]
}

/// The order of names: that of their UTF-8 encodings, byte by byte. This is
/// the order in which `String` values compare.
pub open spec fn name_le(a: Seq<char>, b: Seq<char>) -> bool {
    bytes_le(encode_utf8(a), encode_utf8(b))
}

/// No name in the list is followed by one that the order puts before it.
pub open spec fn ascending(s: Seq<Seq<char>>) -> bool {
    forall|i: int, j: int| 0 <= i <= j < s.len() ==> name_le(s[i], s[j])
}

/// The parts written one after the other with `sep` between neighbours.
pub open spec fn joined(parts: Seq<Seq<char>>, sep: Seq<char>) -> Seq<char>
    decreases parts.len(),
{
    if parts.len() == 0 {
        Seq::empty()
    } else if parts.len() == 1 {
        parts[0]
    } else {
        joined(parts.drop_last(), sep) + sep + parts.last()
    }
}

/// The separator between the members of a set of states that one state of a
/// determinised automaton stands for.
pub open spec fn set_separator() -> Seq<char> {
    " + "@
}

/// The separator between the members of a class of merged states.
pub open spec fn class_separator() -> Seq<char> {
    " | "@
}

/// `name` is the display name of the set `members`: its elements in
/// ascending order, each once, joined by `sep`.
pub open spec fn names_set(name: Seq<char>, members: Set<Seq<char>>, sep: Seq<char>) -> bool {
    exists|listing: Seq<Seq<char>>| #[trigger]
        lists_set(listing, members) && name == joined(listing, sep)
}

/// `listing` holds exactly the elements of `members`, each once, in
/// ascending order.
pub open spec fn lists_set(listing: Seq<Seq<char>>, members: Set<Seq<char>>) -> bool {
    &&& ascending(listing)
    &&& listing.no_duplicates()
    &&& forall|q: Seq<char>| listing.contains(q) <==> members.contains(q)
}

/// A set of one name is shown by that name.
pub proof fn lemma_names_single(name: Seq<char>, q: Seq<char>, sep: Seq<char>)
    requires
        names_set(name, set![q], sep),
    ensures
        name == q,
{
    let listing = choose|listing: Seq<Seq<char>>| #[trigger]
        lists_set(listing, set![q]) && name == joined(listing, sep);
    assert(listing.contains(q));
    assert forall|k: int| 0 <= k < listing.len() implies listing[k] == q by {
        assert(listing.contains(listing[k]));
    }
    if listing.len() > 1 {
        assert(listing[0] == listing[1]);
    }
}

/// `Itertools::sorted` on owned names, collected again. The result holds the
/// same names as often as the argument does, in ascending order.
#[verifier::external_body]
pub(crate) fn sorted(items: Vec<String>) -> (r: Vec<String>)
    ensures
        r.deep_view().to_multiset() == items.deep_view().to_multiset(),
        ascending(r.deep_view()),
{
    items.into_iter().sorted().collect()
}

/// `Itertools::unique` on owned names, collected again. The result keeps the
/// first occurrence of every name, in the order of the argument.
#[verifier::external_body]
pub(crate) fn unique(items: Vec<String>) -> (r: Vec<String>)
    ensures
        r.deep_view() == items.deep_view().remove_duplicates(Seq::empty()),
{
    items.into_iter().unique().collect()
}

/// `Itertools::intersperse` between the parts, collected into one `String`:
/// the parts in their order with `sep` between neighbours.
#[verifier::external_body]
pub(crate) fn interspersed(parts: &Vec<String>, sep: &str) -> (r: String)
    ensures
        r@ == joined(parts.deep_view(), sep@),
{
    Itertools::intersperse(parts.iter().map(|part| part.as_str()), sep).collect()
}

/// A list without repetitions keeps none when what is new in another list
/// is added to it.
proof fn lemma_remove_duplicates_distinct(s: Seq<Seq<char>>, seen: Seq<Seq<char>>)
    requires
        seen.no_duplicates(),
    ensures
        s.remove_duplicates(seen).no_duplicates(),
    decreases s.len(),
{
    if s.len() == 0 {
    } else if seen.contains(s[0]) {
        lemma_remove_duplicates_distinct(s.skip(1), seen);
    } else {
        let seen1 = seen + seq![s[0]];
        assert forall|i: int, j: int|
            0 <= i < seen1.len() && 0 <= j < seen1.len() && i != j implies seen1[i] != seen1[j] by {
            if i < seen.len() && j < seen.len() {
            } else if i < seen.len() {
                assert(seen.contains(seen[i]));
            } else {
                assert(seen.contains(seen[j]));
            }
        }
        lemma_remove_duplicates_distinct(s.skip(1), seen1);
    }
}

/// The names of a list, each once, in ascending order.
pub(crate) fn listed_once(items: Vec<String>) -> (r: Vec<String>)
    ensures
        ascending(r.deep_view()),
        r.deep_view().no_duplicates(),
        forall|q: Seq<char>| r.deep_view().contains(q) <==> items.deep_view().contains(q),
{
    let ghost all = items.deep_view();
    let once = unique(items);
    let ghost mid = once.deep_view();
    let r = sorted(once);
    proof {
        let out = r.deep_view();
        lemma_remove_duplicates_distinct(all, Seq::empty());
        all.lemma_remove_duplicates_properties(Seq::empty());
        assert(all + Seq::<Seq<char>>::empty() =~= all);
        mid.lemma_multiset_has_no_duplicates();
        out.lemma_multiset_has_no_duplicates_conv();
        broadcast use group_to_multiset_ensures;

        assert forall|q: Seq<char>| out.contains(q) <==> all.contains(q) by {
            assert(out.contains(q) <==> out.to_multiset().count(q) > 0);
            assert(mid.contains(q) <==> mid.to_multiset().count(q) > 0);
            assert(mid.contains(q) <==> all.contains(q));
        }
    }
    r
}

/// The display name of the set of the listed states: every state once, in
/// ascending order, joined by the set separator. The order of the listing
/// and what it repeats make no difference.
pub fn hash_states(states: &Vec<String>) -> (name: String)
    ensures
        names_set(name@, states.deep_view().to_set(), set_separator()),
{
    let listed = listed_once(copy_names(states));
    let name = interspersed(&listed, " + ");
    proof {
        assert(lists_set(listed.deep_view(), states.deep_view().to_set()));
    }
    name
}

/// Whether `a` comes no later than `b` in the order of names.
pub fn name_le_exec(a: &str, b: &str) -> (r: bool)
    ensures
        r == name_le(a@, b@),
{
    let x = a.as_bytes();
    let y = b.as_bytes();
    let mut i: usize = 0;
    while i < x.len() && i < y.len()
        invariant
            common_prefix(x@, y@, i as int),
            x@ == encode_utf8(a@),
            y@ == encode_utf8(b@),
        decreases x.len() - i,
    {
        if x[i] != y[i] {
            proof {
                lemma_first_difference(x@, y@, i as int);
            }
            return x[i] < y[i];
        }
        i += 1;
    }
    proof {
        lemma_prefix_decides(x@, y@, i as int);
    }
    x.len() <= y.len()
}

/// Where two byte strings first differ, the bytes there decide their order.
proof fn lemma_first_difference(a: Seq<u8>, b: Seq<u8>, k: int)
    requires
        common_prefix(a, b, k),
        k < a.len(),
        k < b.len(),
        a[k] != b[k],
    ensures
        bytes_le(a, b) == (a[k] < b[k]),
{
    if bytes_le(a, b) {
        let j = choose|j: int| #[trigger]
            common_prefix(a, b, j) && (j == a.len() || (j < b.len() && a[j] < b[j]));
        if j > k {
            assert(a[k] == b[k]);
        }
        if j < k {
            assert(a[j] == b[j]);
        }
    }
    if a[k] < b[k] {
        assert(common_prefix(a, b, k));
    }
}

/// Where one byte string has run out and agrees with the other so far, the
/// shorter one comes first.
proof fn lemma_prefix_decides(a: Seq<u8>, b: Seq<u8>, k: int)
    requires
        common_prefix(a, b, k),
        k == a.len() || k == b.len(),
    ensures
        bytes_le(a, b) == (a.len() <= b.len()),
{
    if bytes_le(a, b) {
        let j = choose|j: int| #[trigger]
            common_prefix(a, b, j) && (j == a.len() || (j < b.len() && a[j] < b[j]));
        if j < a.len() {
            assert(j < k);
            assert(a[j] == b[j]);
        }
    }
    if a.len() <= b.len() {
        assert(common_prefix(a, b, k));
    }
}

/// Of two byte strings one comes no later than the other.
pub proof fn lemma_bytes_le_total(a: Seq<u8>, b: Seq<u8>, k: int)
    requires
        common_prefix(a, b, k),
    ensures
        bytes_le(a, b) || bytes_le(b, a),
    decreases a.len() - k,
{
    if k == a.len() {
        assert(common_prefix(a, b, k));
    } else if k == b.len() {
        assert(common_prefix(b, a, k));
    } else if a[k] < b[k] {
        assert(common_prefix(a, b, k));
    } else if b[k] < a[k] {
        assert(common_prefix(b, a, k));
    } else {
        lemma_bytes_le_total(a, b, k + 1);
    }
}

/// The order of byte strings is transitive.
pub proof fn lemma_bytes_le_transitive(a: Seq<u8>, b: Seq<u8>, c: Seq<u8>)
    requires
        bytes_le(a, b),
        bytes_le(b, c),
    ensures
        bytes_le(a, c),
{
    let k1 = choose|k: int| #[trigger]
        common_prefix(a, b, k) && (k == a.len() || (k < b.len() && a[k] < b[k]));
    let k2 = choose|k: int| #[trigger]
        common_prefix(b, c, k) && (k == b.len() || (k < c.len() && b[k] < c[k]));
    let k = if k1 <= k2 {
        k1
    } else {
        k2
    };
    assert(common_prefix(a, c, k));
}

/// Byte strings of which each comes no later than the other are the same.
pub proof fn lemma_bytes_le_antisymmetric(a: Seq<u8>, b: Seq<u8>)
    requires
        bytes_le(a, b),
        bytes_le(b, a),
    ensures
        a == b,
{
    let k1 = choose|k: int| #[trigger]
        common_prefix(a, b, k) && (k == a.len() || (k < b.len() && a[k] < b[k]));
    let k2 = choose|k: int| #[trigger]
        common_prefix(b, a, k) && (k == b.len() || (k < a.len() && b[k] < a[k]));
    if k1 < a.len() {
        if k2 > k1 {
            assert(b[k1] == a[k1]);
        } else if k2 < k1 {
            assert(a[k2] == b[k2]);
        }
    }
    if k2 < b.len() {
        if k1 > k2 {
            assert(a[k2] == b[k2]);
        } else if k1 < k2 {
            assert(b[k1] == a[k1]);
        }
    }
    assert(a =~= b);
}

/// Of two names one comes no later than the other.
pub proof fn lemma_name_le_total(a: Seq<char>, b: Seq<char>)
    ensures
        name_le(a, b) || name_le(b, a),
{
    lemma_bytes_le_total(encode_utf8(a), encode_utf8(b), 0);
}

/// The order of names is transitive.
pub proof fn lemma_name_le_transitive(a: Seq<char>, b: Seq<char>, c: Seq<char>)
    requires
        name_le(a, b),
        name_le(b, c),
    ensures
        name_le(a, c),
{
    lemma_bytes_le_transitive(encode_utf8(a), encode_utf8(b), encode_utf8(c));
}

/// Names of which each comes no later than the other are the same.
pub proof fn lemma_name_le_antisymmetric(a: Seq<char>, b: Seq<char>)
    requires
        name_le(a, b),
        name_le(b, a),
    ensures
        a == b,
{
    lemma_bytes_le_antisymmetric(encode_utf8(a), encode_utf8(b));
    encode_utf8_decode_utf8(a);
    encode_utf8_decode_utf8(b);
}

/// A set has one listing only, and so one display name for a separator.
pub proof fn lemma_names_set_unique(
    first: Seq<char>,
    second: Seq<char>,
    members: Set<Seq<char>>,
    sep: Seq<char>,
)
    requires
        names_set(first, members, sep),
        names_set(second, members, sep),
    ensures
        first == second,
{
    let x = choose|listing: Seq<Seq<char>>| #[trigger]
        lists_set(listing, members) && first == joined(listing, sep);
    let y = choose|listing: Seq<Seq<char>>| #[trigger]
        lists_set(listing, members) && second == joined(listing, sep);
    let leq = |a: Seq<char>, b: Seq<char>| name_le(a, b);
    assert(total_ordering(leq)) by {
        assert forall|a: Seq<char>| #[trigger] leq(a, a) by {
            lemma_name_le_total(a, a);
        }
        assert forall|a: Seq<char>, b: Seq<char>| #[trigger] leq(a, b) && #[trigger] leq(b, a) implies a
            == b by {
            lemma_name_le_antisymmetric(a, b);
        }
        assert forall|a: Seq<char>, b: Seq<char>, c: Seq<char>| #[trigger]
            leq(a, b) && #[trigger] leq(b, c) implies leq(a, c) by {
            lemma_name_le_transitive(a, b, c);
        }
        assert forall|a: Seq<char>, b: Seq<char>| #[trigger] leq(a, b) || #[trigger] leq(b, a) by {
            lemma_name_le_total(a, b);
        }
    }
    assert(sorted_by(x, leq));
    assert(sorted_by(y, leq));
    assert(x.to_multiset() =~= y.to_multiset()) by {
        broadcast use group_to_multiset_ensures;

        x.lemma_multiset_has_no_duplicates();
        y.lemma_multiset_has_no_duplicates();
        assert forall|q: Seq<char>| x.to_multiset().count(q) == y.to_multiset().count(q) by {
            assert(x.contains(q) <==> members.contains(q));
            assert(y.contains(q) <==> members.contains(q));
            assert(x.contains(q) <==> x.to_multiset().count(q) > 0);
            assert(y.contains(q) <==> y.to_multiset().count(q) > 0);
        }
    }
    lemma_sorted_unique(x, y, leq);
}

/// The order in which the states of an automaton are listed: by name, and
/// states of one name by number.
pub open spec fn listed_before(names: Seq<Seq<char>>, i: int, j: int) -> bool {
    if names[i] == names[j] {
        i < j
    } else {
        name_le(names[i], names[j])
    }
}

/// The listing order puts one of two different states before the other, and
/// never each before the other.
pub proof fn lemma_listed_before_total(names: Seq<Seq<char>>, i: int, j: int)
    requires
        i != j,
    ensures
        listed_before(names, i, j) != listed_before(names, j, i),
{
    lemma_name_le_total(names[i], names[j]);
    if name_le(names[i], names[j]) && name_le(names[j], names[i]) {
        lemma_name_le_antisymmetric(names[i], names[j]);
    }
}

/// Of two states with different names, the one listed first has the name
/// that comes strictly first.
pub proof fn lemma_listed_before_strict(names: Seq<Seq<char>>, i: int, j: int)
    requires
        listed_before(names, i, j),
        names[i] != names[j],
    ensures
        name_le(names[i], names[j]),
        !name_le(names[j], names[i]),
{
    if name_le(names[j], names[i]) {
        lemma_name_le_antisymmetric(names[i], names[j]);
    }
}

/// The listing order is transitive.
pub proof fn lemma_listed_before_transitive(names: Seq<Seq<char>>, i: int, j: int, k: int)
    requires
        listed_before(names, i, j),
        listed_before(names, j, k),
    ensures
        listed_before(names, i, k),
{
    lemma_name_le_total(names[i], names[j]);
    lemma_name_le_total(names[j], names[k]);
    if name_le(names[i], names[j]) && name_le(names[j], names[k]) {
        lemma_name_le_transitive(names[i], names[j], names[k]);
        if names[i] == names[k] {
            lemma_name_le_antisymmetric(names[i], names[j]);
        }
    }
}

/// The first place at which `key` stands in `names`, if it stands there.
pub fn position(names: &Vec<String>, key: &String) -> (r: Option<usize>)
    ensures
        match r {
            Some(i) => i < names.len() && names[i as int]@ == key@ && forall|j: int|
                0 <= j < i ==> names[j]@ != key@,
            None => forall|j: int| 0 <= j < names.len() ==> names[j]@ != key@,
        },
{
    let mut i: usize = 0;
    while i < names.len()
        invariant
            i <= names.len(),
            forall|j: int| 0 <= j < i ==> names[j]@ != key@,
        decreases names.len() - i,
    {
        if names[i] == *key {
            return Some(i);
        }
        i += 1;
    }
    None
}

/// A copy of a list of names.
pub fn copy_names(names: &Vec<String>) -> (r: Vec<String>)
    ensures
        r.deep_view() == names.deep_view(),
{
    let mut r: Vec<String> = Vec::new();
    let mut i: usize = 0;
    while i < names.len()
        invariant
            i <= names.len(),
            r.len() == i,
            forall|j: int| 0 <= j < i ==> r[j]@ == names[j]@,
        decreases names.len() - i,
    {
        r.push(names[i].clone());
        i += 1;
    }
    assert(r.deep_view() =~= names.deep_view());
    r
}

} // verus!
