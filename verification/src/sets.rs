//! Sorted vectors used as canonical finite sets.
//!
//! State identifiers and encoded transition labels are kept in strictly
//! ascending vectors. A strictly ascending vector is the unique sorted
//! listing of its elements, so two such vectors with the same members are
//! equal; the automaton builders rely on this to make their output a pure
//! function of their input.

use vstd::prelude::*;
use vstd::relations::{sorted_by, total_ordering};
use vstd::seq_lib::lemma_sorted_unique;
use vstd::set_lib::{lemma_int_range, lemma_len_subset, set_int_range};

verus! {

/// The sequence is strictly ascending.
pub open spec fn sorted_strict(s: Seq<usize>) -> bool {
    forall|i: int, j: int| 0 <= i < j < s.len() ==> s[i] < s[j]
}

pub proof fn lemma_sorted_strict_no_duplicates(s: Seq<usize>)
    requires
        sorted_strict(s),
    ensures
        s.no_duplicates(),
{
    assert forall|i: int, j: int|
        0 <= i < s.len() && 0 <= j < s.len() && i != j implies s[i] != s[j] by {
        if i < j {
            assert(s[i] < s[j]);
        } else {
            assert(s[j] < s[i]);
        }
    }
}

/// Two sequences sorted by one total order, without duplicates and with the
/// same members, are the same sequence.
pub proof fn lemma_sorted_unique_by<A>(s1: Seq<A>, s2: Seq<A>, leq: spec_fn(A, A) -> bool)
    requires
        sorted_by(s1, leq),
        sorted_by(s2, leq),
        total_ordering(leq),
        s1.no_duplicates(),
        s2.no_duplicates(),
        forall|x: A| s1.contains(x) <==> s2.contains(x),
    ensures
        s1 == s2,
{
    broadcast use vstd::seq_lib::group_to_multiset_ensures;

    s1.lemma_multiset_has_no_duplicates();
    s2.lemma_multiset_has_no_duplicates();
    assert forall|x: A| s1.to_multiset().count(x) == s2.to_multiset().count(x) by {
        if s1.contains(x) {
            assert(s1.to_multiset().contains(x));
            assert(s2.contains(x));
            assert(s2.to_multiset().contains(x));
        } else {
            assert(!s2.contains(x));
            assert(s1.to_multiset().count(x) == 0);
            assert(s2.to_multiset().count(x) == 0);
        }
    }
    assert(s1.to_multiset() =~= s2.to_multiset());
    lemma_sorted_unique(s1, s2, leq);
}

/// Strictly ascending listings of the same members coincide.
pub proof fn lemma_sorted_strict_unique(s1: Seq<usize>, s2: Seq<usize>)
    requires
        sorted_strict(s1),
        sorted_strict(s2),
        forall|x: usize| s1.contains(x) <==> s2.contains(x),
    ensures
        s1 == s2,
{
    let leq = |a: usize, b: usize| a <= b;
    assert(vstd::relations::reflexive(leq)) by {
        assert forall|x: usize| #[trigger] leq(x, x) by {
            assert(x <= x);
        }
    }
    assert(vstd::relations::antisymmetric(leq)) by {
        assert forall|x: usize, y: usize| #[trigger] leq(x, y) && #[trigger] leq(y, x) implies x
            == y by {}
    }
    assert(vstd::relations::transitive(leq)) by {
        assert forall|x: usize, y: usize, z: usize|
            #[trigger] leq(x, y) && #[trigger] leq(y, z) implies leq(x, z) by {
            assert(x <= z);
        }
    }
    assert(vstd::relations::strongly_connected(leq)) by {
        assert forall|x: usize, y: usize| #[trigger] leq(x, y) || #[trigger] leq(y, x) by {
            if x <= y {
                assert(leq(x, y));
            } else {
                assert(leq(y, x));
            }
        }
    }
    lemma_sorted_strict_no_duplicates(s1);
    lemma_sorted_strict_no_duplicates(s2);
    assert(sorted_by(s1, leq)) by {
        assert forall|i: int, j: int| 0 <= i < j < s1.len() implies #[trigger] leq(
            s1[i],
            s1[j],
        ) by {
            assert(s1[i] < s1[j]);
        }
    }
    assert(sorted_by(s2, leq)) by {
        assert forall|i: int, j: int| 0 <= i < j < s2.len() implies #[trigger] leq(
            s2[i],
            s2[j],
        ) by {
            assert(s2[i] < s2[j]);
        }
    }
    lemma_sorted_unique_by(s1, s2, leq);
}

/// A duplicate-free sequence of integers drawn from `[lo, hi)` has at most
/// `hi - lo` entries.
pub proof fn lemma_distinct_bounded_len(s: Seq<int>, lo: int, hi: int)
    requires
        s.no_duplicates(),
        forall|i: int| 0 <= i < s.len() ==> lo <= #[trigger] s[i] < hi,
        lo <= hi,
    ensures
        s.len() <= hi - lo,
{
    broadcast use vstd::seq_lib::seq_to_set_is_finite;
    broadcast use vstd::set::group_set_axioms;

    s.unique_seq_to_set();
    lemma_int_range(lo, hi);
    assert forall|x: int| s.to_set().contains(x) implies set_int_range(lo, hi).contains(x) by {
        assert(s.contains(x));
        let i = choose|i: int| 0 <= i < s.len() && s[i] == x;
        assert(lo <= s[i] < hi);
    }
    assert(s.to_set() <= set_int_range(lo, hi));
    lemma_len_subset(s.to_set(), set_int_range(lo, hi));
}

/// Sorted insertion of a state identifier, as a mathematical function.
pub open spec fn spec_insert(s: Seq<usize>, x: usize) -> Seq<usize>
    decreases s.len(),
{
    if s.len() == 0 {
        seq![x]
    } else if x < s[0] {
        seq![x] + s
    } else if x == s[0] {
        s
    } else {
        seq![s[0]] + spec_insert(s.drop_first(), x)
    }
}

pub proof fn lemma_spec_insert_contains(s: Seq<usize>, x: usize)
    ensures
        spec_insert(s, x).contains(x),
    decreases s.len(),
{
    let r = spec_insert(s, x);
    if s.len() == 0 {
        assert(r[0] == x);
    } else if x < s[0] {
        assert(r[0] == x);
    } else if x == s[0] {
        assert(r[0] == x);
    } else {
        let t = s.drop_first();
        lemma_spec_insert_contains(t, x);
        let rt = spec_insert(t, x);
        let k = choose|k: int| 0 <= k < rt.len() && rt[k] == x;
        assert(r =~= seq![s[0]] + rt);
        assert(r[k + 1] == x);
    }
}

pub proof fn lemma_spec_insert(s: Seq<usize>, x: usize)
    requires
        sorted_strict(s),
    ensures
        sorted_strict(spec_insert(s, x)),
        forall|y: usize| spec_insert(s, x).contains(y) <==> s.contains(y) || y == x,
        s.len() <= spec_insert(s, x).len() <= s.len() + 1,
    decreases s.len(),
{
    let r = spec_insert(s, x);
    if s.len() == 0 {
        assert(r =~= seq![x]);
        assert(r[0] == x);
        assert(r.contains(x));
        assert forall|y: usize| r.contains(y) implies s.contains(y) || y == x by {
            let i = choose|i: int| 0 <= i < r.len() && r[i] == y;
            assert(i == 0);
        }
    } else if x < s[0] {
        assert(r =~= seq![x] + s);
        assert(r[0] == x);
        assert forall|y: usize| r.contains(y) implies s.contains(y) || y == x by {
            let i = choose|i: int| 0 <= i < r.len() && r[i] == y;
            if i > 0 {
                assert(s[i - 1] == y);
                assert(s.contains(y));
            }
        }
        assert forall|y: usize| s.contains(y) || y == x implies r.contains(y) by {
            if s.contains(y) {
                let i = choose|i: int| 0 <= i < s.len() && s[i] == y;
                assert(r[i + 1] == y);
            } else {
                assert(r[0] == x);
            }
        }
    } else if x == s[0] {
        assert(r == s);
        assert(s[0] == x);
        assert(s.contains(x));
    } else {
        let t = s.drop_first();
        assert(sorted_strict(t)) by {
            assert forall|i: int, j: int| 0 <= i < j < t.len() implies t[i] < t[j] by {
                assert(s[i + 1] < s[j + 1]);
            }
        }
        lemma_spec_insert(t, x);
        let rt = spec_insert(t, x);
        assert(r =~= seq![s[0]] + rt);
        assert forall|i: int, j: int| 0 <= i < j < r.len() implies r[i] < r[j] by {
            if i == 0 {
                let y = rt[j - 1];
                assert(rt.contains(y));
                if t.contains(y) {
                    let k = choose|k: int| 0 <= k < t.len() && t[k] == y;
                    assert(s[k + 1] == y);
                    assert(s[0] < y);
                } else {
                    assert(y == x);
                    assert(s[0] < x);
                }
            } else {
                assert(rt[i - 1] < rt[j - 1]);
            }
        }
        assert forall|y: usize| r.contains(y) implies s.contains(y) || y == x by {
            let i = choose|i: int| 0 <= i < r.len() && r[i] == y;
            if i == 0 {
                assert(s[0] == y);
                assert(s.contains(y));
            } else {
                assert(rt[i - 1] == y);
                assert(rt.contains(y));
                if t.contains(y) {
                    let k = choose|k: int| 0 <= k < t.len() && t[k] == y;
                    assert(s[k + 1] == y);
                    assert(s.contains(y));
                }
            }
        }
        assert forall|y: usize| s.contains(y) || y == x implies r.contains(y) by {
            if s.contains(y) {
                let i = choose|i: int| 0 <= i < s.len() && s[i] == y;
                if i == 0 {
                    assert(r[0] == y);
                } else {
                    assert(t[i - 1] == y);
                    assert(t.contains(y));
                    assert(rt.contains(y));
                    let k = choose|k: int| 0 <= k < rt.len() && rt[k] == y;
                    assert(r[k + 1] == y);
                }
            } else {
                lemma_spec_insert_contains(t, x);
                assert(rt.contains(x));
                let k = choose|k: int| 0 <= k < rt.len() && rt[k] == x;
                assert(r[k + 1] == x);
            }
        }
    }
}

/// Whether a state identifier occurs in the vector.
pub fn contains_state(v: &Vec<usize>, x: usize) -> (r: bool)
    ensures
        r == v@.contains(x),
{
    let mut i: usize = 0;
    while i < v.len()
        invariant
            i <= v@.len(),
            forall|k: int| 0 <= k < i ==> v@[k] != x,
        decreases v@.len() - i,
    {
        if v[i] == x {
            assert(v@[i as int] == x);
            return true;
        }
        i = i + 1;
    }
    assert(forall|k: int| 0 <= k < v@.len() ==> v@[k] != x);
    false
}

/// Insert a state identifier into a strictly ascending vector, keeping it
/// strictly ascending; inserting a member leaves the vector unchanged.
pub fn insert_state(v: &mut Vec<usize>, x: usize)
    requires
        sorted_strict(old(v)@),
    ensures
        final(v)@ == spec_insert(old(v)@, x),
        sorted_strict(final(v)@),
        forall|y: usize| final(v)@.contains(y) <==> old(v)@.contains(y) || y == x,
        old(v)@.len() <= final(v)@.len() <= old(v)@.len() + 1,
        !old(v)@.contains(x) ==> final(v)@.len() == old(v)@.len() + 1,
        old(v)@.contains(x) ==> final(v)@ == old(v)@,
{
    let ghost s = v@;
    let mut i: usize = 0;
    while i < v.len() && v[i] < x
        invariant
            i <= v@.len(),
            v@ == s,
            forall|k: int| 0 <= k < i ==> v@[k] < x,
        decreases v@.len() - i,
    {
        i = i + 1;
    }
    if i < v.len() && v[i] == x {
        proof {
            assert(v@[i as int] == x);
            assert(v@.contains(x));
            lemma_spec_insert(s, x);
            assert forall|y: usize| v@.contains(y) <==> spec_insert(s, x).contains(y) by {
                assert(spec_insert(s, x).contains(y) <==> s.contains(y) || y == x);
            }
            lemma_sorted_strict_unique(v@, spec_insert(s, x));
        }
    } else {
        assert(i < s.len() ==> s[i as int] > x);
        proof {
            assert(!s.contains(x)) by {
                if s.contains(x) {
                    let k = choose|k: int| 0 <= k < s.len() && s[k] == x;
                    if k < i {
                        assert(s[k] < x);
                    } else {
                        assert(i < s.len());
                        if k > i {
                            assert(s[i as int] < s[k]);
                        }
                    }
                }
            }
        }
        v.insert(i, x);
        proof {
            assert(v@ == s.insert(i as int, x));
            assert forall|a: int, b: int| 0 <= a < b < v@.len() implies v@[a] < v@[b] by {
                assert(v@[i as int] == x);
                if a < i {
                    assert(v@[a] == s[a]);
                }
                if a > i {
                    assert(v@[a] == s[a - 1]);
                }
                if b < i {
                    assert(v@[b] == s[b]);
                }
                if b > i {
                    assert(v@[b] == s[b - 1]);
                }
            }
            assert forall|y: usize| v@.contains(y) implies s.contains(y) || y == x by {
                let k = choose|k: int| 0 <= k < v@.len() && v@[k] == y;
                if k < i {
                    assert(s[k] == y);
                    assert(s.contains(y));
                } else if k > i {
                    assert(s[k - 1] == y);
                    assert(s.contains(y));
                }
            }
            assert forall|y: usize| s.contains(y) || y == x implies v@.contains(y) by {
                if s.contains(y) {
                    let k = choose|k: int| 0 <= k < s.len() && s[k] == y;
                    if k < i {
                        assert(v@[k] == y);
                    } else {
                        assert(v@[k + 1] == y);
                    }
                } else {
                    assert(v@[i as int] == x);
                }
            }
            lemma_spec_insert(s, x);
            assert forall|y: usize| v@.contains(y) <==> spec_insert(s, x).contains(y) by {
                assert(v@.contains(y) <==> s.contains(y) || y == x);
                assert(spec_insert(s, x).contains(y) <==> s.contains(y) || y == x);
            }
            lemma_sorted_strict_unique(v@, spec_insert(s, x));
        }
    }
}

/// Add every state of `other` to `v`.
pub fn union_states(v: &mut Vec<usize>, other: &Vec<usize>)
    requires
        sorted_strict(old(v)@),
    ensures
        sorted_strict(final(v)@),
        forall|y: usize| #[trigger] final(v)@.contains(y) ==> old(v)@.contains(y)
            || other@.contains(y),
        forall|y: usize| #[trigger] old(v)@.contains(y) ==> final(v)@.contains(y),
        forall|y: usize| #[trigger] other@.contains(y) ==> final(v)@.contains(y),
{
    let ghost s = old(v)@;
    let mut j: usize = 0;
    while j < other.len()
        invariant
            j <= other@.len(),
            sorted_strict(v@),
            forall|y: usize|
                #[trigger] v@.contains(y) <==> s.contains(y) || exists|k: int|
                    0 <= k < j && other@[k] == y,
        decreases other@.len() - j,
    {
        let ghost prev = v@;
        insert_state(v, other[j]);
        proof {
            assert forall|y: usize|
                #[trigger] v@.contains(y) <==> s.contains(y) || exists|k: int|
                    0 <= k < j + 1 && other@[k] == y by {
                if v@.contains(y) {
                    if prev.contains(y) {
                        if !s.contains(y) {
                            let k = choose|k: int| 0 <= k < j && other@[k] == y;
                            assert(0 <= k < j + 1 && other@[k] == y);
                        }
                    } else {
                        assert(y == other@[j as int]);
                        assert(0 <= j < j + 1 && other@[j as int] == y);
                    }
                }
                if s.contains(y) {
                    assert(prev.contains(y));
                    assert(v@.contains(y));
                }
                if exists|k: int| 0 <= k < j + 1 && other@[k] == y {
                    let k = choose|k: int| 0 <= k < j + 1 && other@[k] == y;
                    if k < j {
                        assert(prev.contains(y));
                        assert(v@.contains(y));
                    } else {
                        assert(y == other@[j as int]);
                        assert(v@.contains(y));
                    }
                }
            }
        }
        j = j + 1;
    }
    proof {
        assert forall|y: usize|
            v@.contains(y) <==> s.contains(y) || other@.contains(y) by {
            if v@.contains(y) && !s.contains(y) {
                let k = choose|k: int| 0 <= k < j && other@[k] == y;
                assert(other@.contains(y));
            }
            if other@.contains(y) {
                let k = choose|k: int| 0 <= k < other@.len() && other@[k] == y;
                assert(0 <= k < j && other@[k] == y);
                assert(v@.contains(y));
            }
        }
    }
}

/// Whether the two vectors share a state.
pub fn intersects_states(a: &Vec<usize>, b: &Vec<usize>) -> (r: bool)
    ensures
        r == exists|y: usize| a@.contains(y) && b@.contains(y),
{
    let mut i: usize = 0;
    while i < a.len()
        invariant
            i <= a@.len(),
            forall|k: int| 0 <= k < i ==> !b@.contains(a@[k]),
        decreases a@.len() - i,
    {
        if contains_state(b, a[i]) {
            assert(a@.contains(a@[i as int]));
            return true;
        }
        i = i + 1;
    }
    assert forall|y: usize| a@.contains(y) implies !b@.contains(y) by {
        let k = choose|k: int| 0 <= k < a@.len() && a@[k] == y;
        assert(!b@.contains(a@[k]));
    }
    false
}

/// Whether the two vectors hold the same states in the same order.
pub fn vec_eq_states(a: &Vec<usize>, b: &Vec<usize>) -> (r: bool)
    ensures
        r == (a@ == b@),
{
    if a.len() != b.len() {
        assert(a@ !~= b@);
        return false;
    }
    let mut i: usize = 0;
    while i < a.len()
        invariant
            i <= a@.len(),
            a@.len() == b@.len(),
            forall|k: int| 0 <= k < i ==> a@[k] == b@[k],
        decreases a@.len() - i,
    {
        if a[i] != b[i] {
            assert(a@ !~= b@);
            return false;
        }
        i = i + 1;
    }
    assert(a@ =~= b@);
    true
}

/// An element-for-element copy.
pub fn copy_states(v: &Vec<usize>) -> (r: Vec<usize>)
    ensures
        r@ == v@,
{
    let mut r: Vec<usize> = Vec::new();
    let mut i: usize = 0;
    while i < v.len()
        invariant
            i <= v@.len(),
            r@ == v@.subrange(0, i as int),
        decreases v@.len() - i,
    {
        r.push(v[i]);
        proof {
            assert(r@ =~= v@.subrange(0, i + 1));
        }
        i = i + 1;
    }
    proof {
        assert(r@ =~= v@);
    }
    r
}

} // verus!
