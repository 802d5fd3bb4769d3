//! Nondeterministic finite automaton with epsilon transitions.
//!
//! States are dense integers handed out by a [`Context`]. The transition
//! relation is a strictly sorted vector of labeled [`Edge`]s; a label is a
//! code point encoded as `c + 1`, with `0` ([`EPSILON`]) standing for an
//! epsilon transition. Keeping the vector strictly sorted makes the whole
//! automaton a canonical value: two automata with the same states, edges and
//! start coincide structurally.
//!
//! [`Node::assemble`] is the Thompson construction;
//! [`Automaton::remove_epsilon_transitions`] rewrites the automaton into an
//! epsilon-free one accepting the same language.

use crate::parser::Node;
use crate::sets::{
    contains_state, copy_states, insert_state, intersects_states, lemma_distinct_bounded_len,
    lemma_sorted_strict_no_duplicates, lemma_sorted_unique_by, sorted_strict, union_states,
};
use vstd::prelude::*;
use vstd::relations::sorted_by;

verus! {

/// The label of an epsilon transition.
pub const EPSILON: usize = 0;

/// One labeled transition.
#[derive(Debug, Clone, Copy, PartialEq, Eq)]
pub struct Edge {
    pub from: usize,
    pub label: usize,
    pub to: usize,
}

/// The label encoding a code point.
pub open spec fn spec_label_of(c: char) -> usize {
    (c as usize + 1) as usize
}

/// Encode a code point as a transition label.
pub fn label_of(c: char) -> (r: usize)
    ensures
        r == spec_label_of(c),
        r != EPSILON,
{
    c as usize + 1
}

/// Strict lexicographic order on edges, by source, label, destination.
pub open spec fn edge_lt(a: Edge, b: Edge) -> bool {
    a.from < b.from || (a.from == b.from && (a.label < b.label || (a.label == b.label && a.to
        < b.to)))
}

/// The edge sequence is strictly ascending; it then lists each edge once.
pub open spec fn sorted_strict_edges(s: Seq<Edge>) -> bool {
    forall|i: int, j: int| 0 <= i < j < s.len() ==> edge_lt(s[i], s[j])
}

pub proof fn lemma_sorted_strict_edges_no_duplicates(s: Seq<Edge>)
    requires
        sorted_strict_edges(s),
    ensures
        s.no_duplicates(),
{
    assert forall|i: int, j: int|
        0 <= i < s.len() && 0 <= j < s.len() && i != j implies s[i] != s[j] by {
        if i < j {
            assert(edge_lt(s[i], s[j]));
        } else {
            assert(edge_lt(s[j], s[i]));
        }
    }
}

/// Strictly ascending listings of the same edges coincide.
pub proof fn lemma_sorted_strict_edges_unique(s1: Seq<Edge>, s2: Seq<Edge>)
    requires
        sorted_strict_edges(s1),
        sorted_strict_edges(s2),
        forall|e: Edge| s1.contains(e) <==> s2.contains(e),
    ensures
        s1 == s2,
{
    let leq = |a: Edge, b: Edge| a == b || edge_lt(a, b);
    assert(vstd::relations::reflexive(leq)) by {
        assert forall|x: Edge| #[trigger] leq(x, x) by {}
    }
    assert(vstd::relations::antisymmetric(leq)) by {
        assert forall|x: Edge, y: Edge| #[trigger] leq(x, y) && #[trigger] leq(y, x) implies x
            == y by {}
    }
    assert(vstd::relations::transitive(leq)) by {
        assert forall|x: Edge, y: Edge, z: Edge|
            #[trigger] leq(x, y) && #[trigger] leq(y, z) implies leq(x, z) by {}
    }
    assert(vstd::relations::strongly_connected(leq)) by {
        assert forall|x: Edge, y: Edge| #[trigger] leq(x, y) || #[trigger] leq(y, x) by {}
    }
    lemma_sorted_strict_edges_no_duplicates(s1);
    lemma_sorted_strict_edges_no_duplicates(s2);
    assert(sorted_by(s1, leq)) by {
        assert forall|i: int, j: int| 0 <= i < j < s1.len() implies #[trigger] leq(
            s1[i],
            s1[j],
        ) by {
            assert(edge_lt(s1[i], s1[j]));
        }
    }
    assert(sorted_by(s2, leq)) by {
        assert forall|i: int, j: int| 0 <= i < j < s2.len() implies #[trigger] leq(
            s2[i],
            s2[j],
        ) by {
            assert(edge_lt(s2[i], s2[j]));
        }
    }
    lemma_sorted_unique_by(s1, s2, leq);
}

/// Whether `a` comes strictly before `b`.
fn edge_before(a: &Edge, b: &Edge) -> (r: bool)
    ensures
        r == edge_lt(*a, *b),
{
    a.from < b.from || (a.from == b.from && (a.label < b.label || (a.label == b.label && a.to
        < b.to)))
}

/// Insert an edge into a strictly ascending vector, keeping it strictly
/// ascending; inserting a present edge changes nothing.
#[verifier::rlimit(30)]
pub fn insert_edge(v: &mut Vec<Edge>, e: Edge)
    requires
        sorted_strict_edges(old(v)@),
    ensures
        sorted_strict_edges(final(v)@),
        forall|x: Edge|
            #[trigger] final(v)@.contains(x) ==> old(v)@.contains(x) || x == e,
        forall|x: Edge| #[trigger] old(v)@.contains(x) ==> final(v)@.contains(x),
        final(v)@.contains(e),
{
    let ghost s = v@;
    let mut i: usize = 0;
    while i < v.len() && edge_before(&v[i], &e)
        invariant
            i <= v@.len(),
            v@ == s,
            forall|k: int| 0 <= k < i ==> edge_lt(v@[k], e),
        decreases v@.len() - i,
    {
        i = i + 1;
    }
    if i < v.len() && v[i].from == e.from && v[i].label == e.label && v[i].to == e.to {
        proof {
            assert(v@[i as int] == e);
            assert(v@.contains(e));
            assert forall|x: Edge| v@.contains(x) <==> s.contains(x) || x == e by {
                if x == e {
                    assert(v@.contains(x));
                }
            }
        }
    } else {
        proof {
            if i < s.len() {
                assert(!edge_lt(s[i as int], e));
                assert(s[i as int] != e);
                assert(edge_lt(e, s[i as int]));
            }
        }
        v.insert(i, e);
        proof {
            assert(v@ == s.insert(i as int, e));
            assert forall|a: int, b: int| 0 <= a < b < v@.len() implies edge_lt(v@[a], v@[b]) by {
                assert(v@[i as int] == e);
                if a < i && b < i {
                    assert(v@[a] == s[a] && v@[b] == s[b]);
                    assert(edge_lt(s[a], s[b]));
                } else if a < i && b == i {
                    assert(v@[a] == s[a]);
                    assert(edge_lt(s[a], e));
                } else if a < i && b > i {
                    assert(v@[a] == s[a] && v@[b] == s[b - 1]);
                    assert(a < b - 1 || a == b - 1);
                    if a < b - 1 {
                        assert(edge_lt(s[a], s[b - 1]));
                    } else {
                        assert(i as int == b - 1);
                    }
                } else if a == i {
                    assert(v@[b] == s[b - 1]);
                    assert(edge_lt(e, s[i as int]));
                    if b - 1 > i {
                        assert(edge_lt(s[i as int], s[b - 1]));
                    }
                } else {
                    assert(v@[a] == s[a - 1] && v@[b] == s[b - 1]);
                    assert(edge_lt(s[a - 1], s[b - 1]));
                }
            }
            assert forall|x: Edge| v@.contains(x) implies s.contains(x) || x == e by {
                let k = choose|k: int| 0 <= k < v@.len() && v@[k] == x;
                if k < i {
                    assert(s[k] == x);
                    assert(s.contains(x));
                } else if k > i {
                    assert(s[k - 1] == x);
                    assert(s.contains(x));
                }
            }
            assert forall|x: Edge| s.contains(x) || x == e implies v@.contains(x) by {
                if s.contains(x) {
                    let k = choose|k: int| 0 <= k < s.len() && s[k] == x;
                    if k < i {
                        assert(v@[k] == x);
                    } else {
                        assert(v@[k + 1] == x);
                    }
                } else {
                    assert(v@[i as int] == e);
                    assert(v@.contains(e));
                }
            }
            assert(v@[i as int] == e);
            assert(v@.contains(e));
        }
    }
}

/// Hands out fresh, strictly increasing state identifiers.
#[derive(Debug, Clone, PartialEq)]
pub struct Context {
    pub current: usize,
}

impl Context {
    /// A context that starts numbering at zero.
    pub fn new() -> (r: Self)
        ensures
            r.current == 0,
    {
        Context { current: 0 }
    }

    /// The next fresh identifier; never hands out the same one twice.
    pub fn next(&mut self) -> (r: usize)
        requires
            old(self).current < usize::MAX,
        ensures
            r == old(self).current,
            final(self).current == old(self).current + 1,
    {
        let current = self.current;
        self.current = self.current + 1;
        current
    }
}

/// A nondeterministic finite automaton.
#[derive(Debug, Clone, PartialEq)]
pub struct Automaton {
    pub start: usize,
    pub accepts: Vec<usize>,
    pub transitions: Vec<Edge>,
}

/// `b` is reachable from `a` by at most `k` epsilon transitions.
pub open spec fn eps_reach(ts: Seq<Edge>, a: usize, b: usize, k: nat) -> bool
    decreases k,
{
    a == b || (k > 0 && exists|m: usize|
        ts.contains((Edge { from: a, label: EPSILON, to: m })) && eps_reach(
            ts,
            m,
            b,
            (k - 1) as nat,
        ))
}

/// `b` lies in the epsilon closure of `a`: reachable from `a` by epsilon
/// transitions alone, `a` itself included.
pub open spec fn in_eclosure(ts: Seq<Edge>, a: usize, b: usize) -> bool {
    exists|k: nat| eps_reach(ts, a, b, k)
}

/// A step appended to an epsilon path is still an epsilon path.
pub proof fn lemma_eps_extend(ts: Seq<Edge>, a: usize, s: usize, t: usize, k: nat)
    requires
        eps_reach(ts, a, s, k),
        ts.contains((Edge { from: s, label: EPSILON, to: t })),
    ensures
        eps_reach(ts, a, t, k + 1),
    decreases k,
{
    if a == s {
        assert(eps_reach(ts, t, t, k));
        assert(ts.contains((Edge { from: a, label: EPSILON, to: t })));
    } else {
        let m = choose|m: usize|
            ts.contains((Edge { from: a, label: EPSILON, to: m })) && eps_reach(
                ts,
                m,
                s,
                (k - 1) as nat,
            );
        lemma_eps_extend(ts, m, s, t, (k - 1) as nat);
    }
}

/// Any set that holds `a` and is closed under epsilon transitions holds the
/// whole epsilon closure of `a`.
pub proof fn lemma_closed_covers(ts: Seq<Edge>, c: Seq<usize>, a: usize, b: usize, k: nat)
    requires
        c.contains(a),
        forall|s: usize, t: usize|
            c.contains(s) && ts.contains((Edge { from: s, label: EPSILON, to: t }))
                ==> c.contains(t),
        eps_reach(ts, a, b, k),
    ensures
        c.contains(b),
    decreases k,
{
    if a == b {
    } else {
        let m = choose|m: usize|
            ts.contains((Edge { from: a, label: EPSILON, to: m })) && eps_reach(
                ts,
                m,
                b,
                (k - 1) as nat,
            );
        assert(c.contains(m));
        lemma_closed_covers(ts, c, m, b, (k - 1) as nat);
    }
}

/// A duplicate-free vector whose members are `from` or targets of edges of
/// `ts` has at most `ts.len() + 1` entries.
proof fn lemma_closure_size(c: Seq<usize>, ts: Seq<Edge>, from: usize)
    requires
        c.no_duplicates(),
        forall|b: usize|
            #[trigger] c.contains(b) ==> b == from || exists|e: Edge|
                ts.contains(e) && e.to == b,
    ensures
        c.len() <= ts.len() + 1,
{
    assert forall|i: int| 0 <= i < c.len() implies #[trigger] c[i] == from || exists|e: Edge|
        ts.contains(e) && e.to == c[i] by {
        assert(c.contains(c[i]));
    }
    let w = Seq::new(
        c.len(),
        |i: int|
            if c[i] == from {
                -1
            } else {
                choose|j: int| 0 <= j < ts.len() && ts[j].to == c[i]
            },
    );
    assert forall|i: int| 0 <= i < w.len() implies -1 <= #[trigger] w[i] < ts.len() by {
        if c[i] != from {
            let e = choose|e: Edge| ts.contains(e) && e.to == c[i];
            let j0 = choose|j: int| 0 <= j < ts.len() && ts[j] == e;
            assert(0 <= j0 < ts.len() && ts[j0].to == c[i]);
            let j = choose|j: int| 0 <= j < ts.len() && ts[j].to == c[i];
            assert(w[i] == j);
        }
    }
    assert(w.no_duplicates()) by {
        assert forall|i: int, j: int|
            0 <= i < w.len() && 0 <= j < w.len() && i != j implies w[i] != w[j] by {
            if c[i] == from && c[j] == from {
                assert(c[i] == c[j]);
            } else if c[i] != from && c[j] != from {
                if w[i] == w[j] {
                    let ji = choose|k: int| 0 <= k < ts.len() && ts[k].to == c[i];
                    let jj = choose|k: int| 0 <= k < ts.len() && ts[k].to == c[j];
                    let e = choose|e: Edge| ts.contains(e) && e.to == c[i];
                    let e2 = choose|e: Edge| ts.contains(e) && e.to == c[j];
                    let p = choose|p: int| 0 <= p < ts.len() && ts[p] == e;
                    let q = choose|q: int| 0 <= q < ts.len() && ts[q] == e2;
                    assert(0 <= p < ts.len() && ts[p].to == c[i]);
                    assert(0 <= q < ts.len() && ts[q].to == c[j]);
                    assert(w[i] == ji && w[j] == jj);
                    assert(ts[ji].to == c[i]);
                    assert(ts[jj].to == c[j]);
                    assert(c[i] == c[j]);
                }
            }
        }
    }
    lemma_distinct_bounded_len(w, -1, ts.len() as int);
}

impl Automaton {
    /// The automaton's representation is well formed: both vectors are
    /// strictly sorted, so each is the canonical listing of its members.
    pub open spec fn wf(self) -> bool {
        sorted_strict(self.accepts@) && sorted_strict_edges(self.transitions@)
    }

    /// An automaton with the given start and accepting states and no
    /// transitions.
    pub fn new(start: usize, accepts: Vec<usize>) -> (r: Self)
        requires
            sorted_strict(accepts@),
        ensures
            r.start == start,
            r.accepts@ == accepts@,
            r.transitions@ == Seq::<Edge>::empty(),
            r.wf(),
    {
        let r = Self { start, accepts, transitions: Vec::new() };
        proof {
            assert(r.transitions@ =~= Seq::<Edge>::empty());
        }
        r
    }

    /// Add a transition on code point `c`.
    pub fn add_transition(&mut self, from: usize, destination: usize, c: char)
        requires
            old(self).wf(),
        ensures
            final(self).wf(),
            final(self).start == old(self).start,
            final(self).accepts@ == old(self).accepts@,
            forall|x: Edge|
                final(self).transitions@.contains(x) <==> old(self).transitions@.contains(x)
                    || x == (Edge { from, label: spec_label_of(c), to: destination }),
    {
        let label = label_of(c);
        insert_edge(&mut self.transitions, Edge { from, label, to: destination });
    }

    /// Add an epsilon transition.
    pub fn add_epsilon_transition(&mut self, from: usize, destination: usize)
        requires
            old(self).wf(),
        ensures
            final(self).wf(),
            final(self).start == old(self).start,
            final(self).accepts@ == old(self).accepts@,
            forall|x: Edge|
                final(self).transitions@.contains(x) <==> old(self).transitions@.contains(x)
                    || x == (Edge { from, label: EPSILON, to: destination }),
    {
        insert_edge(&mut self.transitions, Edge { from, label: EPSILON, to: destination });
    }

    /// Add every edge of `other` to this automaton.
    pub fn merge_transitions(&mut self, other: &Vec<Edge>)
        requires
            old(self).wf(),
        ensures
            final(self).wf(),
            final(self).start == old(self).start,
            final(self).accepts@ == old(self).accepts@,
            forall|x: Edge|
                #[trigger] final(self).transitions@.contains(x)
                    ==> old(self).transitions@.contains(x) || other@.contains(x),
            forall|x: Edge|
                #[trigger] old(self).transitions@.contains(x)
                    ==> final(self).transitions@.contains(x),
            forall|x: Edge| #[trigger] other@.contains(x) ==> final(self).transitions@.contains(x),
    {
        let ghost s = old(self).transitions@;
        let mut j: usize = 0;
        while j < other.len()
            invariant
                j <= other@.len(),
                self.wf(),
                self.start == old(self).start,
                self.accepts@ == old(self).accepts@,
                forall|x: Edge|
                    #[trigger] self.transitions@.contains(x) <==> s.contains(x) || exists|k: int|
                        0 <= k < j && other@[k] == x,
            decreases other@.len() - j,
        {
            let ghost prev = self.transitions@;
            insert_edge(&mut self.transitions, other[j]);
            proof {
                assert forall|x: Edge|
                    #[trigger] self.transitions@.contains(x) <==> s.contains(x) || exists|k: int|
                        0 <= k < j + 1 && other@[k] == x by {
                    if self.transitions@.contains(x) {
                        if prev.contains(x) {
                            if !s.contains(x) {
                                let k = choose|k: int| 0 <= k < j && other@[k] == x;
                                assert(0 <= k < j + 1 && other@[k] == x);
                            }
                        } else {
                            assert(x == other@[j as int]);
                            assert(0 <= j < j + 1 && other@[j as int] == x);
                        }
                    }
                    if s.contains(x) {
                        assert(prev.contains(x));
                        assert(self.transitions@.contains(x));
                    }
                    if exists|k: int| 0 <= k < j + 1 && other@[k] == x {
                        let k = choose|k: int| 0 <= k < j + 1 && other@[k] == x;
                        if k < j {
                            assert(prev.contains(x));
                            assert(self.transitions@.contains(x));
                        } else {
                            assert(x == other@[j as int]);
                            assert(self.transitions@.contains(x));
                        }
                    }
                }
            }
            j = j + 1;
        }
        proof {
            assert forall|x: Edge|
                self.transitions@.contains(x) <==> s.contains(x) || other@.contains(x) by {
                if self.transitions@.contains(x) && !s.contains(x) {
                    let k = choose|k: int| 0 <= k < j && other@[k] == x;
                    assert(other@.contains(x));
                }
                if other@.contains(x) {
                    let k = choose|k: int| 0 <= k < other@.len() && other@[k] == x;
                    assert(0 <= k < j && other@[k] == x);
                }
            }
        }
    }

    /// The destinations of the transitions out of `from` under `label`.
    pub fn calc_destinations(&self, from: usize, label: usize) -> (r: Vec<usize>)
        ensures
            sorted_strict(r@),
            forall|t: usize|
                r@.contains(t) <==> self.transitions@.contains((Edge { from, label, to: t })),
    {
        let mut r: Vec<usize> = Vec::new();
        let mut i: usize = 0;
        while i < self.transitions.len()
            invariant
                i <= self.transitions@.len(),
                sorted_strict(r@),
                forall|t: usize|
                    #[trigger] r@.contains(t) <==> exists|k: int|
                        0 <= k < i && self.transitions@[k] == (Edge { from, label, to: t }),
            decreases self.transitions@.len() - i,
        {
            let e = self.transitions[i];
            let ghost prev = r@;
            if e.from == from && e.label == label {
                insert_state(&mut r, e.to);
            }
            proof {
                assert forall|t: usize|
                    #[trigger] r@.contains(t) <==> exists|k: int|
                        0 <= k < i + 1 && self.transitions@[k] == (Edge { from, label, to: t })
                    by {
                    if r@.contains(t) {
                        if prev.contains(t) {
                            let k = choose|k: int|
                                0 <= k < i && self.transitions@[k] == (Edge {
                                    from,
                                    label,
                                    to: t,
                                });
                            assert(0 <= k < i + 1 && self.transitions@[k] == (Edge {
                                from,
                                label,
                                to: t,
                            }));
                        } else {
                            assert(e.from == from && e.label == label && e.to == t);
                            assert(self.transitions@[i as int] == (Edge { from, label, to: t }));
                        }
                    }
                    if exists|k: int|
                        0 <= k < i + 1 && self.transitions@[k] == (Edge { from, label, to: t }) {
                        let k = choose|k: int|
                            0 <= k < i + 1 && self.transitions@[k] == (Edge { from, label, to: t });
                        if k < i {
                            assert(prev.contains(t));
                            assert(r@.contains(t));
                        } else {
                            assert(e == (Edge { from, label, to: t }));
                            assert(r@.contains(t));
                        }
                    }
                }
            }
            i = i + 1;
        }
        proof {
            assert forall|t: usize|
                r@.contains(t) <==> self.transitions@.contains((Edge { from, label, to: t })) by {
                if r@.contains(t) {
                    let k = choose|k: int|
                        0 <= k < i && self.transitions@[k] == (Edge { from, label, to: t });
                    assert(self.transitions@.contains((Edge { from, label, to: t })));
                }
                if self.transitions@.contains((Edge { from, label, to: t })) {
                    let k = choose|k: int|
                        0 <= k < self.transitions@.len() && self.transitions@[k] == (Edge {
                            from,
                            label,
                            to: t,
                        });
                    assert(0 <= k < i && self.transitions@[k] == (Edge { from, label, to: t }));
                }
            }
        }
        r
    }

    /// The labels, epsilon excluded, of the transitions out of the given
    /// source states (out of any state when `sources` is `None`).
    pub fn calc_chars_without_epsilon_transitions(&self, sources: Option<&Vec<usize>>) -> (r: Vec<
        usize,
    >)
        ensures
            sorted_strict(r@),
            forall|lab: usize|
                r@.contains(lab) <==> lab != EPSILON && exists|e: Edge|
                    #[trigger] self.transitions@.contains(e) && e.label == lab && (match sources {
                        Some(d) => d@.contains(e.from),
                        None => true,
                    }),
    {
        let mut r: Vec<usize> = Vec::new();
        let mut i: usize = 0;
        while i < self.transitions.len()
            invariant
                i <= self.transitions@.len(),
                sorted_strict(r@),
                forall|lab: usize|
                    #[trigger] r@.contains(lab) <==> lab != EPSILON && exists|k: int|
                        0 <= k < i && #[trigger] self.transitions@[k].label == lab && (
                        match sources {
                            Some(d) => d@.contains(self.transitions@[k].from),
                            None => true,
                        }),
            decreases self.transitions@.len() - i,
        {
            let e = self.transitions[i];
            let ghost prev = r@;
            let wanted = match sources {
                Some(d) => contains_state(d, e.from),
                None => true,
            };
            if e.label != EPSILON && wanted {
                insert_state(&mut r, e.label);
            }
            proof {
                assert forall|lab: usize|
                    #[trigger] r@.contains(lab) <==> lab != EPSILON && exists|k: int|
                        0 <= k < i + 1 && #[trigger] self.transitions@[k].label == lab && (
                        match sources {
                            Some(d) => d@.contains(self.transitions@[k].from),
                            None => true,
                        }) by {
                    if r@.contains(lab) {
                        if prev.contains(lab) {
                            let k = choose|k: int|
                                0 <= k < i && #[trigger] self.transitions@[k].label == lab && (
                                match sources {
                                    Some(d) => d@.contains(self.transitions@[k].from),
                                    None => true,
                                });
                            assert(self.transitions@[k].label == lab);
                        } else {
                            assert(self.transitions@[i as int].label == lab);
                        }
                    }
                    if lab != EPSILON && exists|k: int|
                        0 <= k < i + 1 && #[trigger] self.transitions@[k].label == lab && (
                        match sources {
                            Some(d) => d@.contains(self.transitions@[k].from),
                            None => true,
                        }) {
                        let k = choose|k: int|
                            0 <= k < i + 1 && #[trigger] self.transitions@[k].label == lab && (
                            match sources {
                                Some(d) => d@.contains(self.transitions@[k].from),
                                None => true,
                            });
                        if k < i {
                            assert(prev.contains(lab));
                            assert(r@.contains(lab));
                        } else {
                            assert(e.label == lab);
                            assert(r@.contains(lab));
                        }
                    }
                }
            }
            i = i + 1;
        }
        proof {
            assert forall|lab: usize|
                r@.contains(lab) <==> lab != EPSILON && exists|e: Edge|
                    #[trigger] self.transitions@.contains(e) && e.label == lab && (match sources {
                        Some(d) => d@.contains(e.from),
                        None => true,
                    }) by {
                if r@.contains(lab) {
                    let k = choose|k: int|
                        0 <= k < i && #[trigger] self.transitions@[k].label == lab && (
                        match sources {
                            Some(d) => d@.contains(self.transitions@[k].from),
                            None => true,
                        });
                    let e = self.transitions@[k];
                    assert(self.transitions@.contains(e));
                }
                if lab != EPSILON && exists|e: Edge|
                    #[trigger] self.transitions@.contains(e) && e.label == lab && (match sources {
                        Some(d) => d@.contains(e.from),
                        None => true,
                    }) {
                    let e = choose|e: Edge|
                        #[trigger] self.transitions@.contains(e) && e.label == lab && (
                        match sources {
                            Some(d) => d@.contains(e.from),
                            None => true,
                        });
                    let k = choose|k: int|
                        0 <= k < self.transitions@.len() && self.transitions@[k] == e;
                    assert(self.transitions@[k].label == lab);
                    assert(r@.contains(lab));
                }
            }
        }
        r
    }

    /// The epsilon closure of `from`: every state reachable from it through
    /// epsilon transitions alone, itself included.
    pub fn calc_epsilon_closure(&self, from: usize) -> (r: Vec<usize>)
        ensures
            sorted_strict(r@),
            forall|b: usize| r@.contains(b) <==> in_eclosure(self.transitions@, from, b),
    {
        let ghost ts = self.transitions@;
        let mut closure: Vec<usize> = Vec::new();
        closure.push(from);
        let mut stack: Vec<usize> = Vec::new();
        stack.push(from);
        proof {
            assert(closure@[0] == from);
            assert(closure@.contains(from));
            assert(stack@[0] == from);
            assert(eps_reach(ts, from, from, 0));
        }
        while stack.len() > 0
            invariant
                sorted_strict(closure@),
                closure@.contains(from),
                forall|b: usize| #[trigger] closure@.contains(b) ==> in_eclosure(ts, from, b),
                forall|i: int| 0 <= i < stack@.len() ==> closure@.contains(#[trigger] stack@[i]),
                stack@.no_duplicates(),
                forall|s: usize, t: usize|
                    closure@.contains(s) && !stack@.contains(s) && ts.contains(
                        (Edge { from: s, label: EPSILON, to: t }),
                    ) ==> closure@.contains(t),
                forall|b: usize|
                    #[trigger] closure@.contains(b) ==> b == from || exists|e: Edge|
                        ts.contains(e) && e.to == b,
                closure@.len() <= ts.len() + 1,
                ts == self.transitions@,
            decreases 2 * (ts.len() + 1 - closure@.len()) + stack@.len(),
        {
            let ghost stack_before = stack@;
            let s = stack.pop().unwrap();
            let ghost stack_after_pop = stack@;
            let ghost closure_at_pop = closure@;
            proof {
                assert(s == stack_before[stack_before.len() - 1]);
                assert(stack_before.contains(s));
                assert(closure@.contains(s));
                assert forall|x: usize| stack_before.contains(x) implies stack@.contains(x) || x
                    == s by {
                    let k = choose|k: int| 0 <= k < stack_before.len() && stack_before[k] == x;
                    if k < stack_before.len() - 1 {
                        assert(stack@[k] == x);
                    }
                }
                assert forall|x: usize| stack@.contains(x) implies stack_before.contains(x) by {
                    let k = choose|k: int| 0 <= k < stack@.len() && stack@[k] == x;
                    assert(stack_before[k] == x);
                }
                assert(!stack@.contains(s)) by {
                    if stack@.contains(s) {
                        let k = choose|k: int| 0 <= k < stack@.len() && stack@[k] == s;
                        assert(stack_before[k] == s);
                        assert(stack_before[stack_before.len() - 1] == s);
                    }
                }
            }
            let mut i: usize = 0;
            while i < self.transitions.len()
                invariant
                    i <= self.transitions@.len(),
                    ts == self.transitions@,
                    sorted_strict(closure@),
                    closure@.contains(from),
                    closure@.contains(s),
                    forall|b: usize| #[trigger] closure@.contains(b) ==> in_eclosure(ts, from, b),
                    forall|k: int|
                        0 <= k < stack@.len() ==> closure@.contains(#[trigger] stack@[k]),
                    stack@.no_duplicates(),
                    !stack@.contains(s),
                    forall|s2: usize, t: usize|
                        closure@.contains(s2) && s2 != s && !stack@.contains(s2) && ts.contains(
                            (Edge { from: s2, label: EPSILON, to: t }),
                        ) ==> closure@.contains(t),
                    forall|k: int|
                        0 <= k < i && ts[k].from == s && ts[k].label == EPSILON
                            ==> closure@.contains(#[trigger] ts[k].to),
                    forall|b: usize|
                        #[trigger] closure@.contains(b) ==> b == from || exists|e: Edge|
                            ts.contains(e) && e.to == b,
                    closure@.len() <= ts.len() + 1,
                    closure@.len() - closure_at_pop.len() == stack@.len() - stack_after_pop.len(),
                    closure@.len() >= closure_at_pop.len(),
                decreases self.transitions@.len() - i,
            {
                let e = self.transitions[i];
                if e.from == s && e.label == EPSILON {
                    if !contains_state(&closure, e.to) {
                        proof {
                            let kr = choose|k: nat| eps_reach(ts, from, s, k);
                            assert(ts[i as int] == e);
                            assert(ts.contains(e));
                            lemma_eps_extend(ts, from, s, e.to, kr);
                        }
                        let ghost closure_prev = closure@;
                        let ghost stack_prev = stack@;
                        insert_state(&mut closure, e.to);
                        stack.push(e.to);
                        proof {
                            assert(stack@ == stack_prev.push(e.to));
                            assert(!stack_prev.contains(e.to));
                            assert forall|k: int|
                                0 <= k < stack@.len() implies closure@.contains(
                                #[trigger] stack@[k],
                            ) by {
                                if k < stack_prev.len() {
                                    assert(stack_prev[k] == stack@[k]);
                                    assert(closure_prev.contains(stack_prev[k]));
                                } else {
                                    assert(stack@[k] == e.to);
                                }
                            }
                            assert(stack@.no_duplicates()) by {
                                assert forall|a: int, b: int|
                                    0 <= a < b < stack@.len() implies stack@[a] != stack@[b] by {
                                    if b == stack@.len() - 1 {
                                        assert(stack@[b] == e.to);
                                        assert(stack_prev[a] == stack@[a]);
                                        assert(stack_prev.contains(stack_prev[a]));
                                    } else {
                                        assert(stack_prev[a] == stack@[a]);
                                        assert(stack_prev[b] == stack@[b]);
                                    }
                                }
                            }
                            assert forall|s2: usize, t: usize|
                                closure@.contains(s2) && s2 != s && !stack@.contains(s2)
                                    && ts.contains(
                                    (Edge { from: s2, label: EPSILON, to: t }),
                                ) implies closure@.contains(t) by {
                                assert(stack@[stack@.len() - 1] == e.to);
                                assert(stack@.contains(e.to));
                                assert(s2 != e.to);
                                assert(closure_prev.contains(s2));
                                assert(!stack_prev.contains(s2)) by {
                                    if stack_prev.contains(s2) {
                                        let k = choose|k: int|
                                            0 <= k < stack_prev.len() && stack_prev[k] == s2;
                                        assert(stack@[k] == s2);
                                        assert(stack@.contains(s2));
                                    }
                                }
                                assert(closure_prev.contains(t));
                            }
                            lemma_sorted_strict_no_duplicates(closure@);
                            lemma_closure_size(closure@, ts, from);
                        }
                    }
                }
                i = i + 1;
            }
            proof {
                // `s` is now fully processed
                assert forall|s2: usize, t: usize|
                    closure@.contains(s2) && !stack@.contains(s2) && ts.contains(
                        (Edge { from: s2, label: EPSILON, to: t }),
                    ) implies closure@.contains(t) by {
                    if s2 == s {
                        let k = choose|k: int|
                            0 <= k < ts.len() && ts[k] == (Edge { from: s, label: EPSILON, to: t });
                        assert(ts[k].from == s && ts[k].label == EPSILON && ts[k].to == t);
                        assert(closure@.contains(ts[k].to));
                    }
                }
            }
        }
        proof {
            assert forall|b: usize| closure@.contains(b) <==> in_eclosure(ts, from, b) by {
                if in_eclosure(ts, from, b) {
                    let k = choose|k: nat| eps_reach(ts, from, b, k);
                    assert forall|s: usize, t: usize|
                        closure@.contains(s) && ts.contains(
                            (Edge { from: s, label: EPSILON, to: t }),
                        ) implies closure@.contains(t) by {
                        assert(!stack@.contains(s));
                    }
                    lemma_closed_covers(ts, closure@, from, b, k);
                }
            }
        }
        closure
    }

    /// The destinations reached from `from` by one `label` transition taken
    /// anywhere in the epsilon closure of `from`, epsilon closures of the
    /// landing states included.
    pub fn expand_epsilon_closure(&self, from: usize, label: usize) -> (r: Vec<usize>)
        ensures
            sorted_strict(r@),
            forall|t: usize| r@.contains(t) <==> expand_has(self.transitions@, from, label, t),
    {
        let ghost ts = self.transitions@;
        let first_destinations = self.calc_epsilon_closure(from);
        let mut second_destinations: Vec<usize> = Vec::new();
        let mut i: usize = 0;
        while i < first_destinations.len()
            invariant
                i <= first_destinations@.len(),
                ts == self.transitions@,
                sorted_strict(second_destinations@),
                sorted_strict(first_destinations@),
                forall|b: usize|
                    first_destinations@.contains(b) <==> in_eclosure(ts, from, b),
                forall|t: usize|
                    #[trigger] second_destinations@.contains(t) <==> exists|k: int|
                        0 <= k < i && ts.contains(
                            (Edge { from: first_destinations@[k], label, to: t }),
                        ),
            decreases first_destinations@.len() - i,
        {
            let d = self.calc_destinations(first_destinations[i], label);
            let ghost prev = second_destinations@;
            union_states(&mut second_destinations, &d);
            proof {
                assert forall|t: usize|
                    #[trigger] second_destinations@.contains(t) <==> prev.contains(t)
                        || d@.contains(t) by {}
                assert forall|t: usize|
                    #[trigger] second_destinations@.contains(t) <==> exists|k: int|
                        0 <= k < i + 1 && ts.contains(
                            (Edge { from: first_destinations@[k], label, to: t }),
                        ) by {
                    if second_destinations@.contains(t) {
                        if prev.contains(t) {
                            let k = choose|k: int|
                                0 <= k < i && ts.contains(
                                    (Edge { from: first_destinations@[k], label, to: t }),
                                );
                            assert(0 <= k < i + 1 && ts.contains(
                                (Edge { from: first_destinations@[k], label, to: t }),
                            ));
                        } else {
                            assert(d@.contains(t));
                            assert(ts.contains(
                                (Edge { from: first_destinations@[i as int], label, to: t }),
                            ));
                        }
                    }
                    if exists|k: int|
                        0 <= k < i + 1 && ts.contains(
                            (Edge { from: first_destinations@[k], label, to: t }),
                        ) {
                        let k = choose|k: int|
                            0 <= k < i + 1 && ts.contains(
                                (Edge { from: first_destinations@[k], label, to: t }),
                            );
                        if k < i {
                            assert(prev.contains(t));
                        } else {
                            assert(d@.contains(t));
                        }
                        assert(second_destinations@.contains(t));
                    }
                }
            }
            i = i + 1;
        }
        let mut result: Vec<usize> = Vec::new();
        let mut j: usize = 0;
        while j < second_destinations.len()
            invariant
                j <= second_destinations@.len(),
                ts == self.transitions@,
                sorted_strict(result@),
                sorted_strict(second_destinations@),
                forall|t: usize|
                    #[trigger] second_destinations@.contains(t) <==> exists|k: int|
                        0 <= k < first_destinations@.len() && ts.contains(
                            (Edge { from: first_destinations@[k], label, to: t }),
                        ),
                sorted_strict(first_destinations@),
                forall|b: usize|
                    first_destinations@.contains(b) <==> in_eclosure(ts, from, b),
                forall|t: usize|
                    #[trigger] result@.contains(t) <==> exists|k: int|
                        0 <= k < j && in_eclosure(ts, second_destinations@[k], t),
            decreases second_destinations@.len() - j,
        {
            let c = self.calc_epsilon_closure(second_destinations[j]);
            let ghost prev = result@;
            union_states(&mut result, &c);
            proof {
                assert forall|t: usize|
                    #[trigger] result@.contains(t) <==> prev.contains(t) || c@.contains(t) by {}
                assert forall|t: usize|
                    #[trigger] result@.contains(t) <==> exists|k: int|
                        0 <= k < j + 1 && in_eclosure(ts, second_destinations@[k], t) by {
                    if result@.contains(t) {
                        if prev.contains(t) {
                            let k = choose|k: int|
                                0 <= k < j && in_eclosure(ts, second_destinations@[k], t);
                            assert(0 <= k < j + 1 && in_eclosure(
                                ts,
                                second_destinations@[k],
                                t,
                            ));
                        } else {
                            assert(c@.contains(t));
                            assert(in_eclosure(ts, second_destinations@[j as int], t));
                        }
                    }
                    if exists|k: int|
                        0 <= k < j + 1 && in_eclosure(ts, second_destinations@[k], t) {
                        let k = choose|k: int|
                            0 <= k < j + 1 && in_eclosure(ts, second_destinations@[k], t);
                        if k < j {
                            assert(prev.contains(t));
                        } else {
                            assert(c@.contains(t));
                        }
                        assert(result@.contains(t));
                    }
                }
            }
            j = j + 1;
        }
        proof {
            assert forall|t: usize|
                result@.contains(t) <==> expand_has(ts, from, label, t) by {
                if result@.contains(t) {
                    let k = choose|k: int|
                        0 <= k < j && in_eclosure(ts, second_destinations@[k], t);
                    let d2 = second_destinations@[k];
                    assert(second_destinations@.contains(d2));
                    let k2 = choose|k2: int|
                        0 <= k2 < first_destinations@.len() && ts.contains(
                            (Edge { from: first_destinations@[k2], label, to: d2 }),
                        );
                    let d1 = first_destinations@[k2];
                    assert(first_destinations@.contains(d1));
                    assert(in_eclosure(ts, from, d1));
                    assert(expand_has(ts, from, label, t));
                }
                if expand_has(ts, from, label, t) {
                    let (d1, d2) = choose|d1: usize, d2: usize|
                        in_eclosure(ts, from, d1) && ts.contains((Edge { from: d1, label, to: d2 }))
                            && in_eclosure(ts, d2, t);
                    assert(first_destinations@.contains(d1));
                    let k2 = choose|k2: int|
                        0 <= k2 < first_destinations@.len() && first_destinations@[k2] == d1;
                    assert(ts.contains((Edge { from: first_destinations@[k2], label, to: d2 })));
                    assert(second_destinations@.contains(d2));
                    let k = choose|k: int|
                        0 <= k < second_destinations@.len() && second_destinations@[k] == d2;
                    assert(in_eclosure(ts, second_destinations@[k], t));
                    assert(result@.contains(t));
                }
            }
        }
        result
    }

    /// The epsilon-free transition relation described in the epsilon
    /// elimination step: an edge `(f, c, t)` exists exactly when some state
    /// in the epsilon closure of `f` steps to a state on `c` whose epsilon
    /// closure holds `t`.
    fn new_transitions_without_epsilon_transitions(&self) -> (r: Vec<Edge>)
        ensures
            sorted_strict_edges(r@),
            forall|e: Edge|
                r@.contains(e) <==> e.label != EPSILON && expand_has(
                    self.transitions@,
                    e.from,
                    e.label,
                    e.to,
                ),
    {
        let ghost ts = self.transitions@;
        let mut sources: Vec<usize> = Vec::new();
        let mut i: usize = 0;
        while i < self.transitions.len()
            invariant
                i <= self.transitions@.len(),
                ts == self.transitions@,
                sorted_strict(sources@),
                forall|f: usize|
                    #[trigger] sources@.contains(f) <==> exists|k: int|
                        0 <= k < i && #[trigger] ts[k].from == f,
            decreases self.transitions@.len() - i,
        {
            let e = self.transitions[i];
            let ghost prev = sources@;
            insert_state(&mut sources, e.from);
            proof {
                assert forall|f: usize|
                    #[trigger] sources@.contains(f) <==> exists|k: int|
                        0 <= k < i + 1 && #[trigger] ts[k].from == f by {
                    if sources@.contains(f) {
                        if prev.contains(f) {
                            let k = choose|k: int| 0 <= k < i && #[trigger] ts[k].from == f;
                            assert(ts[k].from == f);
                        } else {
                            assert(ts[i as int].from == f);
                        }
                    }
                    if exists|k: int| 0 <= k < i + 1 && #[trigger] ts[k].from == f {
                        let k = choose|k: int| 0 <= k < i + 1 && #[trigger] ts[k].from == f;
                        if k < i {
                            assert(prev.contains(f));
                        }
                        assert(sources@.contains(f));
                    }
                }
            }
            i = i + 1;
        }
        let chars = self.calc_chars_without_epsilon_transitions(None);
        let mut r: Vec<Edge> = Vec::new();
        let mut si: usize = 0;
        while si < sources.len()
            invariant
                si <= sources@.len(),
                ts == self.transitions@,
                sorted_strict(sources@),
                sorted_strict(chars@),
                forall|f: usize|
                    #[trigger] sources@.contains(f) <==> exists|k: int|
                        0 <= k < ts.len() && #[trigger] ts[k].from == f,
                forall|lab: usize|
                    chars@.contains(lab) <==> lab != EPSILON && exists|e: Edge|
                        #[trigger] ts.contains(e) && e.label == lab,
                sorted_strict_edges(r@),
                forall|e: Edge|
                    #[trigger] r@.contains(e) <==> e.label != EPSILON && expand_has(
                        ts,
                        e.from,
                        e.label,
                        e.to,
                    ) && exists|a: int| 0 <= a < si && sources@[a] == e.from,
            decreases sources@.len() - si,
        {
            let source = sources[si];
            let mut ci: usize = 0;
            while ci < chars.len()
                invariant
                    ci <= chars@.len(),
                    si < sources@.len(),
                    source == sources@[si as int],
                    ts == self.transitions@,
                    sorted_strict(sources@),
                    sorted_strict(chars@),
                    forall|f: usize|
                        #[trigger] sources@.contains(f) <==> exists|k: int|
                            0 <= k < ts.len() && #[trigger] ts[k].from == f,
                    forall|lab: usize|
                        chars@.contains(lab) <==> lab != EPSILON && exists|e: Edge|
                            #[trigger] ts.contains(e) && e.label == lab,
                    sorted_strict_edges(r@),
                    forall|e: Edge|
                        #[trigger] r@.contains(e) <==> e.label != EPSILON && expand_has(
                            ts,
                            e.from,
                            e.label,
                            e.to,
                        ) && ((exists|a: int| 0 <= a < si && sources@[a] == e.from) || (e.from
                            == source && exists|b: int| 0 <= b < ci && chars@[b] == e.label)),
                decreases chars@.len() - ci,
            {
                let lab = chars[ci];
                let dests = self.expand_epsilon_closure(source, lab);
                let ghost r_start = r@;
                let mut k: usize = 0;
                while k < dests.len()
                    invariant
                        k <= dests@.len(),
                        si < sources@.len(),
                        ci < chars@.len(),
                        source == sources@[si as int],
                        lab == chars@[ci as int],
                        sorted_strict(dests@),
                        forall|t: usize|
                            dests@.contains(t) <==> expand_has(ts, source, lab, t),
                        r@ == r_start + Seq::new(
                            k as nat,
                            |m: int| Edge { from: source, label: lab, to: dests@[m] },
                        ),
                    decreases dests@.len() - k,
                {
                    let ghost r_prev = r@;
                    r.push(Edge { from: source, label: lab, to: dests[k] });
                    proof {
                        assert(r@ =~= r_start + Seq::new(
                            (k + 1) as nat,
                            |m: int| Edge { from: source, label: lab, to: dests@[m] },
                        ));
                    }
                    k = k + 1;
                }
                proof {
                    let block = Seq::new(
                        dests@.len(),
                        |m: int| Edge { from: source, label: lab, to: dests@[m] },
                    );
                    assert(r@ == r_start + block);
                    // every previously recorded edge comes lexicographically first
                    assert forall|e: Edge| r_start.contains(e) implies e.from < source || (e.from
                        == source && e.label < lab) by {
                        if exists|a: int| 0 <= a < si && sources@[a] == e.from {
                            let a = choose|a: int| 0 <= a < si && sources@[a] == e.from;
                            assert(sources@[a] < sources@[si as int]);
                        } else {
                            let b = choose|b: int| 0 <= b < ci && chars@[b] == e.label;
                            assert(chars@[b] < chars@[ci as int]);
                        }
                    }
                    assert(sorted_strict_edges(r@)) by {
                        assert forall|a: int, b: int|
                            0 <= a < b < r@.len() implies edge_lt(r@[a], r@[b]) by {
                            if b < r_start.len() {
                                assert(r@[a] == r_start[a] && r@[b] == r_start[b]);
                                assert(edge_lt(r_start[a], r_start[b]));
                            } else if a < r_start.len() {
                                assert(r@[a] == r_start[a]);
                                assert(r_start.contains(r_start[a]));
                                assert(r@[b] == block[b - r_start.len()]);
                            } else {
                                assert(r@[a] == block[a - r_start.len()]);
                                assert(r@[b] == block[b - r_start.len()]);
                                assert(dests@[a - r_start.len()] < dests@[b - r_start.len()]);
                            }
                        }
                    }
                    assert forall|e: Edge|
                        #[trigger] r@.contains(e) <==> e.label != EPSILON && expand_has(
                            ts,
                            e.from,
                            e.label,
                            e.to,
                        ) && ((exists|a: int| 0 <= a < si && sources@[a] == e.from) || (e.from
                            == source && exists|b: int| 0 <= b < ci + 1 && chars@[b] == e.label))
                        by {
                        if r@.contains(e) {
                            let p = choose|p: int| 0 <= p < r@.len() && r@[p] == e;
                            if p < r_start.len() {
                                assert(r_start.contains(e));
                            } else {
                                assert(e == block[p - r_start.len()]);
                                assert(dests@.contains(dests@[p - r_start.len()]));
                                assert(expand_has(ts, source, lab, e.to));
                                assert(chars@.contains(lab));
                                assert(0 <= ci < ci + 1 && chars@[ci as int] == e.label);
                            }
                        }
                        if e.label != EPSILON && expand_has(ts, e.from, e.label, e.to) && e.from
                            == source && exists|b: int| 0 <= b < ci + 1 && chars@[b] == e.label {
                            let b = choose|b: int| 0 <= b < ci + 1 && chars@[b] == e.label;
                            if b < ci {
                                assert(r_start.contains(e));
                                let p = choose|p: int| 0 <= p < r_start.len() && r_start[p] == e;
                                assert(r@[p] == e);
                                assert(r@.contains(e));
                            } else {
                                assert(e.label == lab);
                                assert(dests@.contains(e.to));
                                let m = choose|m: int|
                                    0 <= m < dests@.len() && dests@[m] == e.to;
                                assert(r@[r_start.len() + m] == e);
                                assert(r@.contains(e));
                            }
                        }
                        if e.label != EPSILON && expand_has(ts, e.from, e.label, e.to) && exists|
                            a: int,
                        | 0 <= a < si && sources@[a] == e.from {
                            assert(r_start.contains(e));
                            let p = choose|p: int| 0 <= p < r_start.len() && r_start[p] == e;
                            assert(r@[p] == e);
                            assert(r@.contains(e));
                        }
                    }
                }
                ci = ci + 1;
            }
            proof {
                assert forall|e: Edge|
                    #[trigger] r@.contains(e) <==> e.label != EPSILON && expand_has(
                        ts,
                        e.from,
                        e.label,
                        e.to,
                    ) && exists|a: int| 0 <= a < si + 1 && sources@[a] == e.from by {
                    if r@.contains(e) {
                        if e.from == source {
                            assert(0 <= si < si + 1 && sources@[si as int] == e.from);
                        } else {
                            let a = choose|a: int| 0 <= a < si && sources@[a] == e.from;
                            assert(0 <= a < si + 1 && sources@[a] == e.from);
                        }
                    }
                    if e.label != EPSILON && expand_has(ts, e.from, e.label, e.to) && exists|
                        a: int,
                    | 0 <= a < si + 1 && sources@[a] == e.from {
                        let a = choose|a: int| 0 <= a < si + 1 && sources@[a] == e.from;
                        if a < si {
                            assert(r@.contains(e));
                        } else {
                            assert(e.from == source);
                            // the label of a possible transition appears in `chars`
                            let (d1, d2) = choose|d1: usize, d2: usize|
                                in_eclosure(ts, e.from, d1) && ts.contains(
                                    (Edge { from: d1, label: e.label, to: d2 }),
                                ) && in_eclosure(ts, d2, e.to);
                            assert(ts.contains((Edge { from: d1, label: e.label, to: d2 })));
                            assert(chars@.contains(e.label));
                            let b = choose|b: int| 0 <= b < chars@.len() && chars@[b] == e.label;
                            assert(0 <= b < ci && chars@[b] == e.label);
                            assert(r@.contains(e));
                        }
                    }
                }
            }
            si = si + 1;
        }
        proof {
            assert forall|e: Edge|
                r@.contains(e) <==> e.label != EPSILON && expand_has(ts, e.from, e.label, e.to)
                by {
                if r@.contains(e) {
                }
                if e.label != EPSILON && expand_has(ts, e.from, e.label, e.to) {
                    // a state with a possible transition has some outgoing edge,
                    // so it is recorded as a source
                    let (d1, d2) = choose|d1: usize, d2: usize|
                        in_eclosure(ts, e.from, d1) && ts.contains(
                            (Edge { from: d1, label: e.label, to: d2 }),
                        ) && in_eclosure(ts, d2, e.to);
                    let kr = choose|kk: nat| eps_reach(ts, e.from, d1, kk);
                    if e.from == d1 {
                        let p = choose|p: int|
                            0 <= p < ts.len() && ts[p] == (Edge { from: d1, label: e.label, to: d2 });
                        assert(ts[p].from == e.from);
                        assert(sources@.contains(e.from));
                    } else {
                        assert(eps_reach(ts, e.from, d1, kr));
                        assert(kr > 0);
                        let m = choose|m: usize|
                            ts.contains((Edge { from: e.from, label: EPSILON, to: m }))
                                && eps_reach(ts, m, d1, (kr - 1) as nat);
                        let p = choose|p: int|
                            0 <= p < ts.len() && ts[p] == (Edge {
                                from: e.from,
                                label: EPSILON,
                                to: m,
                            });
                        assert(ts[p].from == e.from);
                        assert(sources@.contains(e.from));
                    }
                    let a = choose|a: int| 0 <= a < sources@.len() && sources@[a] == e.from;
                    assert(r@.contains(e));
                }
            }
        }
        r
    }

    /// Remove every epsilon transition, preserving the accepted language:
    /// the new transitions are those of
    /// [`Automaton::new_transitions_without_epsilon_transitions`], and the
    /// start state becomes accepting when its epsilon closure meets the
    /// accepting set (the automaton accepted the empty string).
    pub fn remove_epsilon_transitions(&mut self)
        requires
            old(self).wf(),
        ensures
            final(self).wf(),
            final(self).start == old(self).start,
            forall|q: usize|
                final(self).accepts@.contains(q) <==> old(self).accepts@.contains(q) || (q == old(
                    self,
                ).start && exists|p: usize|
                    in_eclosure(old(self).transitions@, old(self).start, p) && old(
                        self,
                    ).accepts@.contains(p)),
            forall|e: Edge|
                final(self).transitions@.contains(e) <==> e.label != EPSILON && expand_has(
                    old(self).transitions@,
                    e.from,
                    e.label,
                    e.to,
                ),
    {
        let closure = self.calc_epsilon_closure(self.start);
        let new_transitions = self.new_transitions_without_epsilon_transitions();
        let ghost accepts_before = self.accepts@;
        if intersects_states(&closure, &self.accepts) {
            let start = self.start;
            insert_state(&mut self.accepts, start);
        }
        proof {
            assert forall|q: usize|
                self.accepts@.contains(q) <==> accepts_before.contains(q) || (q == self.start
                    && exists|p: usize|
                    in_eclosure(self.transitions@, self.start, p) && accepts_before.contains(p))
                by {
                if exists|p: usize|
                    in_eclosure(self.transitions@, self.start, p) && accepts_before.contains(p) {
                    let p = choose|p: usize|
                        in_eclosure(self.transitions@, self.start, p) && accepts_before.contains(
                            p,
                        );
                    assert(closure@.contains(p));
                }
            }
        }
        self.transitions = new_transitions;
    }
}

/// There is a state `d1` in the epsilon closure of `from` with a `label`
/// transition to some `d2` whose epsilon closure holds `t`.
pub open spec fn expand_has(ts: Seq<Edge>, from: usize, label: usize, t: usize) -> bool {
    exists|d1: usize, d2: usize|
        in_eclosure(ts, from, d1) && ts.contains((Edge { from: d1, label, to: d2 }))
            && in_eclosure(ts, d2, t)
}

/// `q` is reachable from `p` consuming exactly the word `s`, along a path
/// of at most `k` moves, epsilon moves included.
pub open spec fn reach_word(ts: Seq<Edge>, p: usize, s: Seq<char>, q: usize, k: nat) -> bool
    decreases k,
{
    (p == q && s.len() == 0) || (k > 0 && ((exists|m: usize|
        ts.contains((Edge { from: p, label: EPSILON, to: m })) && reach_word(
            ts,
            m,
            s,
            q,
            (k - 1) as nat,
        )) || (s.len() > 0 && exists|m: usize|
        ts.contains((Edge { from: p, label: spec_label_of(s[0]), to: m })) && reach_word(
            ts,
            m,
            s.drop_first(),
            q,
            (k - 1) as nat,
        ))))
}

/// The automaton accepts `s`: some accepting state is reachable from the
/// start consuming exactly `s`.
pub open spec fn nfa_accepts(a: Automaton, s: Seq<char>) -> bool {
    exists|q: usize, k: nat|
        reach_word(a.transitions@, a.start, s, q, k) && a.accepts@.contains(q)
}

pub proof fn lemma_eps_concat(ts: Seq<Edge>, a: usize, b: usize, c: usize, k1: nat, k2: nat)
    requires
        eps_reach(ts, a, b, k1),
        eps_reach(ts, b, c, k2),
    ensures
        eps_reach(ts, a, c, k1 + k2),
    decreases k1,
{
    if a == b {
        lemma_eps_mono(ts, b, c, k2, k1 + k2);
    } else {
        let m = choose|m: usize|
            ts.contains((Edge { from: a, label: EPSILON, to: m })) && eps_reach(
                ts,
                m,
                b,
                (k1 - 1) as nat,
            );
        lemma_eps_concat(ts, m, b, c, (k1 - 1) as nat, k2);
    }
}

pub proof fn lemma_eps_mono(ts: Seq<Edge>, a: usize, b: usize, k1: nat, k2: nat)
    requires
        eps_reach(ts, a, b, k1),
        k1 <= k2,
    ensures
        eps_reach(ts, a, b, k2),
    decreases k1,
{
    if a != b {
        let m = choose|m: usize|
            ts.contains((Edge { from: a, label: EPSILON, to: m })) && eps_reach(
                ts,
                m,
                b,
                (k1 - 1) as nat,
            );
        lemma_eps_mono(ts, m, b, (k1 - 1) as nat, (k2 - 1) as nat);
    }
}

pub proof fn lemma_word_prepend_eps(
    ts: Seq<Edge>,
    p: usize,
    m: usize,
    s: Seq<char>,
    q: usize,
    k1: nat,
    k2: nat,
)
    requires
        eps_reach(ts, p, m, k1),
        reach_word(ts, m, s, q, k2),
    ensures
        reach_word(ts, p, s, q, k1 + k2),
    decreases k1,
{
    if p == m {
        lemma_word_mono(ts, p, s, q, k2, k1 + k2);
    } else {
        let mm = choose|mm: usize|
            ts.contains((Edge { from: p, label: EPSILON, to: mm })) && eps_reach(
                ts,
                mm,
                m,
                (k1 - 1) as nat,
            );
        lemma_word_prepend_eps(ts, mm, m, s, q, (k1 - 1) as nat, k2);
    }
}

pub proof fn lemma_word_mono(ts: Seq<Edge>, p: usize, s: Seq<char>, q: usize, k1: nat, k2: nat)
    requires
        reach_word(ts, p, s, q, k1),
        k1 <= k2,
    ensures
        reach_word(ts, p, s, q, k2),
    decreases k1,
{
    if p == q && s.len() == 0 {
    } else if exists|m: usize|
        ts.contains((Edge { from: p, label: EPSILON, to: m })) && reach_word(
            ts,
            m,
            s,
            q,
            (k1 - 1) as nat,
        ) {
        let m = choose|m: usize|
            ts.contains((Edge { from: p, label: EPSILON, to: m })) && reach_word(
                ts,
                m,
                s,
                q,
                (k1 - 1) as nat,
            );
        lemma_word_mono(ts, m, s, q, (k1 - 1) as nat, (k2 - 1) as nat);
    } else {
        let m = choose|m: usize|
            ts.contains((Edge { from: p, label: spec_label_of(s[0]), to: m })) && reach_word(
                ts,
                m,
                s.drop_first(),
                q,
                (k1 - 1) as nat,
            );
        lemma_word_mono(ts, m, s.drop_first(), q, (k1 - 1) as nat, (k2 - 1) as nat);
    }
}

pub proof fn lemma_word_append_eps(
    ts: Seq<Edge>,
    p: usize,
    s: Seq<char>,
    q: usize,
    q2: usize,
    k1: nat,
    k2: nat,
)
    requires
        reach_word(ts, p, s, q, k1),
        eps_reach(ts, q, q2, k2),
    ensures
        reach_word(ts, p, s, q2, k1 + k2),
    decreases k1,
{
    if p == q && s.len() == 0 {
        lemma_eps_to_word(ts, q, q2, k2);
        assert(s =~= Seq::<char>::empty());
        lemma_word_mono(ts, p, s, q2, k2, k1 + k2);
    } else if exists|m: usize|
        ts.contains((Edge { from: p, label: EPSILON, to: m })) && reach_word(
            ts,
            m,
            s,
            q,
            (k1 - 1) as nat,
        ) {
        let m = choose|m: usize|
            ts.contains((Edge { from: p, label: EPSILON, to: m })) && reach_word(
                ts,
                m,
                s,
                q,
                (k1 - 1) as nat,
            );
        lemma_word_append_eps(ts, m, s, q, q2, (k1 - 1) as nat, k2);
    } else {
        let m = choose|m: usize|
            ts.contains((Edge { from: p, label: spec_label_of(s[0]), to: m })) && reach_word(
                ts,
                m,
                s.drop_first(),
                q,
                (k1 - 1) as nat,
            );
        lemma_word_append_eps(ts, m, s.drop_first(), q, q2, (k1 - 1) as nat, k2);
    }
}

pub proof fn lemma_eps_to_word(ts: Seq<Edge>, p: usize, q: usize, k: nat)
    requires
        eps_reach(ts, p, q, k),
    ensures
        reach_word(ts, p, Seq::empty(), q, k),
    decreases k,
{
    if p != q {
        let m = choose|m: usize|
            ts.contains((Edge { from: p, label: EPSILON, to: m })) && eps_reach(
                ts,
                m,
                q,
                (k - 1) as nat,
            );
        lemma_eps_to_word(ts, m, q, (k - 1) as nat);
    }
}

/// A path that consumes nothing is an epsilon path.
pub proof fn lemma_word_empty(ts: Seq<Edge>, p: usize, s: Seq<char>, q: usize, k: nat)
    requires
        reach_word(ts, p, s, q, k),
        s.len() == 0,
    ensures
        eps_reach(ts, p, q, k),
    decreases k,
{
    if p == q {
    } else {
        let m = choose|m: usize|
            ts.contains((Edge { from: p, label: EPSILON, to: m })) && reach_word(
                ts,
                m,
                s,
                q,
                (k - 1) as nat,
            );
        lemma_word_empty(ts, m, s, q, (k - 1) as nat);
    }
}

/// A path that consumes something starts with an epsilon stretch and one
/// consuming move.
pub proof fn lemma_word_decompose(ts: Seq<Edge>, p: usize, s: Seq<char>, q: usize, k: nat)
    requires
        reach_word(ts, p, s, q, k),
        s.len() > 0,
    ensures
        exists|d1: usize, d2: usize, k2: nat|
            #![trigger in_eclosure(ts, p, d1), reach_word(ts, d2, s.drop_first(), q, k2)]
            in_eclosure(ts, p, d1) && ts.contains(
                (Edge { from: d1, label: spec_label_of(s[0]), to: d2 }),
            ) && reach_word(ts, d2, s.drop_first(), q, k2) && k2 < k,
    decreases k,
{
    if exists|m: usize|
        ts.contains((Edge { from: p, label: EPSILON, to: m })) && reach_word(
            ts,
            m,
            s,
            q,
            (k - 1) as nat,
        ) {
        let m = choose|m: usize|
            ts.contains((Edge { from: p, label: EPSILON, to: m })) && reach_word(
                ts,
                m,
                s,
                q,
                (k - 1) as nat,
            );
        lemma_word_decompose(ts, m, s, q, (k - 1) as nat);
        let (d1, d2, k2) = choose|d1: usize, d2: usize, k2: nat|
            #![trigger in_eclosure(ts, m, d1), reach_word(ts, d2, s.drop_first(), q, k2)]
            in_eclosure(ts, m, d1) && ts.contains(
                (Edge { from: d1, label: spec_label_of(s[0]), to: d2 }),
            ) && reach_word(ts, d2, s.drop_first(), q, k2) && k2 < (k - 1) as nat;
        let kd = choose|kd: nat| eps_reach(ts, m, d1, kd);
        assert(eps_reach(ts, p, d1, kd + 1)) by {
            assert(ts.contains((Edge { from: p, label: EPSILON, to: m })));
        }
        assert(in_eclosure(ts, p, d1));
    } else {
        let m = choose|m: usize|
            ts.contains((Edge { from: p, label: spec_label_of(s[0]), to: m })) && reach_word(
                ts,
                m,
                s.drop_first(),
                q,
                (k - 1) as nat,
            );
        assert(eps_reach(ts, p, p, 0));
        assert(in_eclosure(ts, p, p));
        assert(reach_word(ts, m, s.drop_first(), q, (k - 1) as nat) && ((k - 1) as nat) < k);
    }
}

/// Every epsilon-free edge of the rewritten automaton stands for a short
/// path of the source, and conversely a consuming path of the source gives
/// an edge path of the rewritten automaton. Here: the source simulates the
/// rewritten automaton.
pub proof fn lemma_elim_backward(
    ats: Seq<Edge>,
    bts: Seq<Edge>,
    p: usize,
    s: Seq<char>,
    q: usize,
    k: nat,
)
    requires
        forall|e: Edge|
            bts.contains(e) <==> e.label != EPSILON && expand_has(ats, e.from, e.label, e.to),
        reach_word(bts, p, s, q, k),
    ensures
        exists|k2: nat| reach_word(ats, p, s, q, k2),
    decreases k,
{
    if p == q && s.len() == 0 {
        assert(reach_word(ats, p, s, q, 0));
    } else if exists|m: usize|
        bts.contains((Edge { from: p, label: EPSILON, to: m })) && reach_word(
            bts,
            m,
            s,
            q,
            (k - 1) as nat,
        ) {
        let m = choose|m: usize|
            bts.contains((Edge { from: p, label: EPSILON, to: m })) && reach_word(
                bts,
                m,
                s,
                q,
                (k - 1) as nat,
            );
        assert(false);
    } else {
        let m = choose|m: usize|
            bts.contains((Edge { from: p, label: spec_label_of(s[0]), to: m })) && reach_word(
                bts,
                m,
                s.drop_first(),
                q,
                (k - 1) as nat,
            );
        lemma_elim_backward(ats, bts, m, s.drop_first(), q, (k - 1) as nat);
        let kk = choose|kk: nat| reach_word(ats, m, s.drop_first(), q, kk);
        let (d1, d2) = choose|d1: usize, d2: usize|
            in_eclosure(ats, p, d1) && ats.contains(
                (Edge { from: d1, label: spec_label_of(s[0]), to: d2 }),
            ) && in_eclosure(ats, d2, m);
        let kd2 = choose|kd2: nat| eps_reach(ats, d2, m, kd2);
        lemma_word_prepend_eps(ats, d2, m, s.drop_first(), q, kd2, kk);
        assert(reach_word(ats, d1, s, q, kd2 + kk + 1)) by {
            assert(ats.contains((Edge { from: d1, label: spec_label_of(s[0]), to: d2 })));
            assert(reach_word(ats, d2, s.drop_first(), q, kd2 + kk));
        }
        let kd1 = choose|kd1: nat| eps_reach(ats, p, d1, kd1);
        lemma_word_prepend_eps(ats, p, d1, s, q, kd1, kd2 + kk + 1);
    }
}

/// The rewritten automaton simulates the source on nonempty words, ending
/// in the same accepting state.
pub proof fn lemma_elim_forward(
    ats: Seq<Edge>,
    bts: Seq<Edge>,
    f: usize,
    p: usize,
    s: Seq<char>,
    q: usize,
    k: nat,
)
    requires
        forall|e: Edge|
            bts.contains(e) <==> e.label != EPSILON && expand_has(ats, e.from, e.label, e.to),
        in_eclosure(ats, f, p),
        reach_word(ats, p, s, q, k),
        s.len() > 0,
    ensures
        exists|k2: nat| reach_word(bts, f, s, q, k2),
    decreases s.len(),
{
    lemma_word_decompose(ats, p, s, q, k);
    let (d1, d2, k2) = choose|d1: usize, d2: usize, k2: nat|
        #![trigger in_eclosure(ats, p, d1), reach_word(ats, d2, s.drop_first(), q, k2)]
        in_eclosure(ats, p, d1) && ats.contains(
            (Edge { from: d1, label: spec_label_of(s[0]), to: d2 }),
        ) && reach_word(ats, d2, s.drop_first(), q, k2) && k2 < k;
    let kf = choose|kf: nat| eps_reach(ats, f, p, kf);
    let kp = choose|kp: nat| eps_reach(ats, p, d1, kp);
    lemma_eps_concat(ats, f, p, d1, kf, kp);
    assert(in_eclosure(ats, f, d1));
    if s.drop_first().len() == 0 {
        lemma_word_empty(ats, d2, s.drop_first(), q, k2);
        assert(in_eclosure(ats, d2, q));
        let lab = spec_label_of(s[0]);
        lemma_label_of_nonzero(s[0]);
        assert(lab != EPSILON);
        assert(expand_has(ats, f, lab, q));
        assert(bts.contains((Edge { from: f, label: lab, to: q })));
        assert(reach_word(bts, q, s.drop_first(), q, 0));
        assert(reach_word(bts, f, s, q, 1));
    } else {
        assert(eps_reach(ats, d2, d2, 0));
        assert(in_eclosure(ats, d2, d2));
        lemma_elim_forward(ats, bts, d2, d2, s.drop_first(), q, k2);
        let kk = choose|kk: nat| reach_word(bts, d2, s.drop_first(), q, kk);
        let lab = spec_label_of(s[0]);
        lemma_label_of_nonzero(s[0]);
        assert(lab != EPSILON);
        assert(expand_has(ats, f, lab, d2)) by {
            assert(eps_reach(ats, d2, d2, 0));
        }
        assert(bts.contains((Edge { from: f, label: lab, to: d2 })));
        assert(reach_word(bts, f, s, q, kk + 1));
    }
}

/// Encoded code points are never the epsilon label.
pub proof fn lemma_label_of_nonzero(c: char)
    ensures
        spec_label_of(c) != EPSILON,
{
    assert(0 <= c as int <= 0x10FFFF);
}

/// Epsilon elimination preserves the language exactly: the rewritten
/// automaton accepts a word precisely when the source did.
pub proof fn lemma_elimination_preserves_language(a: Automaton, b: Automaton, s: Seq<char>)
    requires
        b.start == a.start,
        forall|q: usize|
            b.accepts@.contains(q) <==> a.accepts@.contains(q) || (q == a.start && exists|p: usize|
                in_eclosure(a.transitions@, a.start, p) && a.accepts@.contains(p)),
        forall|e: Edge|
            b.transitions@.contains(e) <==> e.label != EPSILON && expand_has(
                a.transitions@,
                e.from,
                e.label,
                e.to,
            ),
    ensures
        nfa_accepts(b, s) == nfa_accepts(a, s),
{
    let ats = a.transitions@;
    let bts = b.transitions@;
    if nfa_accepts(a, s) {
        let (q, k) = choose|q: usize, k: nat|
            reach_word(ats, a.start, s, q, k) && a.accepts@.contains(q);
        if s.len() == 0 {
            lemma_word_empty(ats, a.start, s, q, k);
            assert(in_eclosure(ats, a.start, q));
            assert(b.accepts@.contains(a.start));
            assert(s =~= Seq::<char>::empty());
            assert(reach_word(bts, b.start, s, b.start, 0));
            assert(nfa_accepts(b, s));
        } else {
            assert(eps_reach(ats, a.start, a.start, 0));
            assert(in_eclosure(ats, a.start, a.start));
            lemma_elim_forward(ats, bts, a.start, a.start, s, q, k);
            let k2 = choose|k2: nat| reach_word(bts, a.start, s, q, k2);
            assert(b.accepts@.contains(q));
            assert(nfa_accepts(b, s));
        }
    }
    if nfa_accepts(b, s) {
        let (q, k) = choose|q: usize, k: nat|
            reach_word(bts, b.start, s, q, k) && b.accepts@.contains(q);
        lemma_elim_backward(ats, bts, b.start, s, q, k);
        let k2 = choose|k2: nat| reach_word(ats, b.start, s, q, k2);
        if a.accepts@.contains(q) {
            assert(nfa_accepts(a, s));
        } else {
            assert(q == a.start);
            let p = choose|p: usize|
                in_eclosure(ats, a.start, p) && a.accepts@.contains(p);
            let kp = choose|kp: nat| eps_reach(ats, a.start, p, kp);
            lemma_word_append_eps(ats, a.start, s, q, p, k2, kp);
            assert(nfa_accepts(a, s));
        }
    }
}

/// How many fresh states the Thompson construction of `n` draws.
pub open spec fn alloc_count(n: Node) -> nat
    decreases n,
{
    match n {
        Node::Empty => 2,
        Node::Char(_) => 2,
        Node::Concat(l, r) => alloc_count(*l) + alloc_count(*r),
        Node::Union(l, r) => alloc_count(*l) + alloc_count(*r) + 2,
        Node::Star(i) => alloc_count(*i) + 2,
    }
}

pub proof fn lemma_alloc_count_bound(n: Node)
    ensures
        alloc_count(n) <= 2 * crate::parser::node_count(n),
    decreases n,
{
    match n {
        Node::Empty => {},
        Node::Char(_) => {},
        Node::Concat(l, r) => {
            lemma_alloc_count_bound(*l);
            lemma_alloc_count_bound(*r);
        },
        Node::Union(l, r) => {
            lemma_alloc_count_bound(*l);
            lemma_alloc_count_bound(*r);
        },
        Node::Star(i) => {
            lemma_alloc_count_bound(*i);
        },
    }
}

/// The start state of the automaton built for `n` when the construction
/// context stands at `c0`.
pub open spec fn model_start(n: Node, c0: int) -> int
    decreases n,
{
    match n {
        Node::Empty => c0,
        Node::Char(_) => c0,
        Node::Concat(l, r) => model_start(*l, c0),
        Node::Union(l, r) => c0 + alloc_count(*l) + alloc_count(*r),
        Node::Star(i) => c0 + alloc_count(*i),
    }
}

/// Whether `q` is an accepting state of the automaton built for `n` at `c0`.
pub open spec fn model_accepts(n: Node, c0: int, q: int) -> bool
    decreases n,
{
    match n {
        Node::Empty => q == c0 + 1,
        Node::Char(_) => q == c0 + 1,
        Node::Concat(l, r) => model_accepts(*r, c0 + alloc_count(*l), q),
        Node::Union(l, r) => q == c0 + alloc_count(*l) + alloc_count(*r) + 1,
        Node::Star(i) => model_accepts(*i, c0, q) || q == c0 + alloc_count(*i) + 1,
    }
}

/// Whether the automaton built for `n` at `c0` has an edge from `f` to `t`
/// under `lab`; this is the Thompson construction, state by state.
pub open spec fn model_edge(n: Node, c0: int, f: int, lab: int, t: int) -> bool
    decreases n,
{
    match n {
        Node::Empty => f == c0 && lab == EPSILON && t == c0 + 1,
        Node::Char(c) => f == c0 && lab == spec_label_of(c) && t == c0 + 1,
        Node::Concat(l, r) => {
            let c1 = c0 + alloc_count(*l);
            model_edge(*l, c0, f, lab, t) || model_edge(*r, c1, f, lab, t) || (model_accepts(
                *l,
                c0,
                f,
            ) && lab == EPSILON && t == model_start(*r, c1))
        },
        Node::Union(l, r) => {
            let c1 = c0 + alloc_count(*l);
            let s = c0 + alloc_count(*l) + alloc_count(*r);
            let a = s + 1;
            model_edge(*l, c0, f, lab, t) || model_edge(*r, c1, f, lab, t) || (f == s && lab
                == EPSILON && (t == model_start(*l, c0) || t == model_start(*r, c1))) || ((
            model_accepts(*l, c0, f) || model_accepts(*r, c1, f)) && lab == EPSILON && t == a)
        },
        Node::Star(i) => {
            let s = c0 + alloc_count(*i);
            let a = s + 1;
            model_edge(*i, c0, f, lab, t) || (f == s && lab == EPSILON && (t == model_start(
                *i,
                c0,
            ) || t == a)) || (model_accepts(*i, c0, f) && lab == EPSILON && t == model_start(
                *i,
                c0,
            ))
        },
    }
}

impl Automaton {
    /// The Thompson automaton of a whole tree, numbered from zero.
    pub fn from(node: Node) -> (r: Automaton)
        requires
            alloc_count(node) <= usize::MAX,
        ensures
            r.wf(),
            r.start == model_start(node, 0),
            forall|q: usize| r.accepts@.contains(q) <==> model_accepts(node, 0, q as int),
            forall|e: Edge|
                r.transitions@.contains(e) <==> model_edge(
                    node,
                    0,
                    e.from as int,
                    e.label as int,
                    e.to as int,
                ),
    {
        let mut context = Context::new();
        node.assemble(&mut context)
    }
}

impl Node {
    /// Thompson construction: build the automaton for this node, drawing
    /// fresh states from `context`. The resulting automaton is exactly the
    /// one the `model_*` functions describe for the context's entry value.
    #[verifier::loop_isolation(false)]
    pub fn assemble(&self, context: &mut Context) -> (r: Automaton)
        requires
            old(context).current + alloc_count(*self) <= usize::MAX,
        ensures
            final(context).current == old(context).current + alloc_count(*self),
            r.wf(),
            r.start == model_start(*self, old(context).current as int),
            forall|q: usize|
                r.accepts@.contains(q) <==> model_accepts(
                    *self,
                    old(context).current as int,
                    q as int,
                ),
            forall|x: Edge|
                r.transitions@.contains(x) <==> model_edge(
                    *self,
                    old(context).current as int,
                    x.from as int,
                    x.label as int,
                    x.to as int,
                ),
        decreases *self,
    {
        let ghost c0 = context.current as int;
        match self {
            Node::Empty => {
                let start = context.next();
                let accept = context.next();
                let mut accepts: Vec<usize> = Vec::new();
                accepts.push(accept);
                proof {
                    assert(accepts@[0] == accept);
                }
                let mut automaton = Automaton::new(start, accepts);
                automaton.add_epsilon_transition(start, accept);
                proof {
                    assert forall|q: usize|
                        automaton.accepts@.contains(q) <==> model_accepts(*self, c0, q as int) by {
                        if automaton.accepts@.contains(q) {
                            let k = choose|k: int|
                                0 <= k < automaton.accepts@.len() && automaton.accepts@[k] == q;
                            assert(k == 0);
                        }
                        if q == accept {
                            assert(automaton.accepts@[0] == q);
                        }
                    }
                }
                automaton
            },
            Node::Char(c) => {
                let start = context.next();
                let accept = context.next();
                let mut accepts: Vec<usize> = Vec::new();
                accepts.push(accept);
                proof {
                    assert(accepts@[0] == accept);
                }
                let mut automaton = Automaton::new(start, accepts);
                automaton.add_transition(start, accept, *c);
                proof {
                    assert forall|q: usize|
                        automaton.accepts@.contains(q) <==> model_accepts(*self, c0, q as int) by {
                        if automaton.accepts@.contains(q) {
                            let k = choose|k: int|
                                0 <= k < automaton.accepts@.len() && automaton.accepts@[k] == q;
                            assert(k == 0);
                        }
                        if q == accept {
                            assert(automaton.accepts@[0] == q);
                        }
                    }
                }
                automaton
            },
            Node::Concat(left, right) => {
                let left_automaton = left.assemble(context);
                let ghost c1 = context.current as int;
                let right_automaton = right.assemble(context);
                let start = left_automaton.start;
                let accepts = copy_states(&right_automaton.accepts);
                proof {
                    assert(sorted_strict(accepts@)) by {
                        assert forall|a: int, b: int|
                            0 <= a < b < accepts@.len() implies accepts@[a] < accepts@[b] by {
                            assert(right_automaton.accepts@[a] < right_automaton.accepts@[b]);
                        }
                    }
                }
                let mut automaton = Automaton::new(start, accepts);
                automaton.merge_transitions(&left_automaton.transitions);
                automaton.merge_transitions(&right_automaton.transitions);
                proof {
                    assert forall|x: Edge|
                        automaton.transitions@.contains(x) <==> left_automaton
                            .transitions@.contains(x) || right_automaton.transitions@.contains(x)
                        by {
                        assert(!Seq::<Edge>::empty().contains(x));
                    }
                }
                let right_start = right_automaton.start;
                let mut i: usize = 0;
                while i < left_automaton.accepts.len()
                    invariant
                        i <= left_automaton.accepts@.len(),
                        automaton.wf(),
                        automaton.start == start,
                        automaton.accepts@ == right_automaton.accepts@,
                        forall|x: Edge|
                            #[trigger] automaton.transitions@.contains(x) <==> left_automaton
                                .transitions@.contains(x) || right_automaton.transitions@.contains(
                                x,
                            ) || exists|k: int|
                                0 <= k < i && x == (Edge {
                                    from: left_automaton.accepts@[k],
                                    label: EPSILON,
                                    to: right_start,
                                }),
                    decreases left_automaton.accepts@.len() - i,
                {
                    let ghost prev = automaton.transitions@;
                    automaton.add_epsilon_transition(left_automaton.accepts[i], right_start);
                    proof {
                        assert forall|x: Edge|
                            #[trigger] automaton.transitions@.contains(x) <==> left_automaton
                                .transitions@.contains(x) || right_automaton.transitions@.contains(
                                x,
                            ) || exists|k: int|
                                0 <= k < i + 1 && x == (Edge {
                                    from: left_automaton.accepts@[k],
                                    label: EPSILON,
                                    to: right_start,
                                }) by {
                            if automaton.transitions@.contains(x) {
                                if !prev.contains(x) {
                                    assert(x == (Edge {
                                        from: left_automaton.accepts@[i as int],
                                        label: EPSILON,
                                        to: right_start,
                                    }));
                                } else {
                                    if !left_automaton.transitions@.contains(x)
                                        && !right_automaton.transitions@.contains(x) {
                                        let k = choose|k: int|
                                            0 <= k < i && x == (Edge {
                                                from: left_automaton.accepts@[k],
                                                label: EPSILON,
                                                to: right_start,
                                            });
                                        assert(0 <= k < i + 1 && x == (Edge {
                                            from: left_automaton.accepts@[k],
                                            label: EPSILON,
                                            to: right_start,
                                        }));
                                    }
                                }
                            }
                            if exists|k: int|
                                0 <= k < i + 1 && x == (Edge {
                                    from: left_automaton.accepts@[k],
                                    label: EPSILON,
                                    to: right_start,
                                }) {
                                let k = choose|k: int|
                                    0 <= k < i + 1 && x == (Edge {
                                        from: left_automaton.accepts@[k],
                                        label: EPSILON,
                                        to: right_start,
                                    });
                                if k < i {
                                    assert(prev.contains(x));
                                }
                                assert(automaton.transitions@.contains(x));
                            }
                        }
                    }
                    i = i + 1;
                }
                proof {
                    assert forall|x: Edge|
                        automaton.transitions@.contains(x) <==> model_edge(
                            *self,
                            c0,
                            x.from as int,
                            x.label as int,
                            x.to as int,
                        ) by {
                        if automaton.transitions@.contains(x) {
                            if !left_automaton.transitions@.contains(x)
                                && !right_automaton.transitions@.contains(x) {
                                let k = choose|k: int|
                                    0 <= k < left_automaton.accepts@.len() && x == (Edge {
                                        from: left_automaton.accepts@[k],
                                        label: EPSILON,
                                        to: right_start,
                                    });
                                assert(left_automaton.accepts@.contains(
                                    left_automaton.accepts@[k],
                                ));
                                assert(model_accepts(**left, c0, x.from as int));
                            }
                        } else {
                            if model_edge(*self, c0, x.from as int, x.label as int, x.to as int) {
                                if model_accepts(**left, c0, x.from as int) && x.label == EPSILON
                                    && x.to == right_start {
                                    assert(left_automaton.accepts@.contains(x.from));
                                    let k = choose|k: int|
                                        0 <= k < left_automaton.accepts@.len()
                                            && left_automaton.accepts@[k] == x.from;
                                    assert(x == (Edge {
                                        from: left_automaton.accepts@[k],
                                        label: EPSILON,
                                        to: right_start,
                                    }));
                                    assert(automaton.transitions@.contains(x));
                                }
                            }
                        }
                    }
                    assert forall|q: usize|
                        automaton.accepts@.contains(q) <==> model_accepts(*self, c0, q as int)
                        by {}
                }
                automaton
            },
            Node::Union(left, right) => {
                let left_automaton = left.assemble(context);
                let ghost c1 = context.current as int;
                let right_automaton = right.assemble(context);
                let start = context.next();
                let accept = context.next();
                let mut accepts: Vec<usize> = Vec::new();
                accepts.push(accept);
                proof {
                    assert(accepts@[0] == accept);
                }
                let mut automaton = Automaton::new(start, accepts);
                automaton.add_epsilon_transition(start, left_automaton.start);
                automaton.add_epsilon_transition(start, right_automaton.start);
                automaton.merge_transitions(&left_automaton.transitions);
                automaton.merge_transitions(&right_automaton.transitions);
                let ghost base = automaton.transitions@;
                let mut i: usize = 0;
                while i < left_automaton.accepts.len()
                    invariant
                        i <= left_automaton.accepts@.len(),
                        automaton.wf(),
                        automaton.start == start,
                        automaton.accepts@ == seq![accept],
                        forall|x: Edge|
                            #[trigger] automaton.transitions@.contains(x) <==> base.contains(x)
                                || exists|k: int|
                                0 <= k < i && x == (Edge {
                                    from: left_automaton.accepts@[k],
                                    label: EPSILON,
                                    to: accept,
                                }),
                    decreases left_automaton.accepts@.len() - i,
                {
                    let ghost prev = automaton.transitions@;
                    automaton.add_epsilon_transition(left_automaton.accepts[i], accept);
                    proof {
                        assert forall|x: Edge|
                            #[trigger] automaton.transitions@.contains(x) <==> base.contains(x)
                                || exists|k: int|
                                0 <= k < i + 1 && x == (Edge {
                                    from: left_automaton.accepts@[k],
                                    label: EPSILON,
                                    to: accept,
                                }) by {
                            if automaton.transitions@.contains(x) {
                                if !prev.contains(x) {
                                    assert(x == (Edge {
                                        from: left_automaton.accepts@[i as int],
                                        label: EPSILON,
                                        to: accept,
                                    }));
                                } else if !base.contains(x) {
                                    let k = choose|k: int|
                                        0 <= k < i && x == (Edge {
                                            from: left_automaton.accepts@[k],
                                            label: EPSILON,
                                            to: accept,
                                        });
                                    assert(0 <= k < i + 1 && x == (Edge {
                                        from: left_automaton.accepts@[k],
                                        label: EPSILON,
                                        to: accept,
                                    }));
                                }
                            }
                            if exists|k: int|
                                0 <= k < i + 1 && x == (Edge {
                                    from: left_automaton.accepts@[k],
                                    label: EPSILON,
                                    to: accept,
                                }) {
                                let k = choose|k: int|
                                    0 <= k < i + 1 && x == (Edge {
                                        from: left_automaton.accepts@[k],
                                        label: EPSILON,
                                        to: accept,
                                    });
                                if k < i {
                                    assert(prev.contains(x));
                                }
                                assert(automaton.transitions@.contains(x));
                            }
                        }
                    }
                    i = i + 1;
                }
                let ghost mid = automaton.transitions@;
                let mut j: usize = 0;
                while j < right_automaton.accepts.len()
                    invariant
                        j <= right_automaton.accepts@.len(),
                        automaton.wf(),
                        automaton.start == start,
                        automaton.accepts@ == seq![accept],
                        forall|x: Edge|
                            #[trigger] automaton.transitions@.contains(x) <==> mid.contains(x)
                                || exists|k: int|
                                0 <= k < j && x == (Edge {
                                    from: right_automaton.accepts@[k],
                                    label: EPSILON,
                                    to: accept,
                                }),
                    decreases right_automaton.accepts@.len() - j,
                {
                    let ghost prev = automaton.transitions@;
                    automaton.add_epsilon_transition(right_automaton.accepts[j], accept);
                    proof {
                        assert forall|x: Edge|
                            #[trigger] automaton.transitions@.contains(x) <==> mid.contains(x)
                                || exists|k: int|
                                0 <= k < j + 1 && x == (Edge {
                                    from: right_automaton.accepts@[k],
                                    label: EPSILON,
                                    to: accept,
                                }) by {
                            if automaton.transitions@.contains(x) {
                                if !prev.contains(x) {
                                    assert(x == (Edge {
                                        from: right_automaton.accepts@[j as int],
                                        label: EPSILON,
                                        to: accept,
                                    }));
                                } else if !mid.contains(x) {
                                    let k = choose|k: int|
                                        0 <= k < j && x == (Edge {
                                            from: right_automaton.accepts@[k],
                                            label: EPSILON,
                                            to: accept,
                                        });
                                    assert(0 <= k < j + 1 && x == (Edge {
                                        from: right_automaton.accepts@[k],
                                        label: EPSILON,
                                        to: accept,
                                    }));
                                }
                            }
                            if exists|k: int|
                                0 <= k < j + 1 && x == (Edge {
                                    from: right_automaton.accepts@[k],
                                    label: EPSILON,
                                    to: accept,
                                }) {
                                let k = choose|k: int|
                                    0 <= k < j + 1 && x == (Edge {
                                        from: right_automaton.accepts@[k],
                                        label: EPSILON,
                                        to: accept,
                                    });
                                if k < j {
                                    assert(prev.contains(x));
                                }
                                assert(automaton.transitions@.contains(x));
                            }
                        }
                    }
                    j = j + 1;
                }
                proof {
                    assert forall|q: usize|
                        automaton.accepts@.contains(q) <==> model_accepts(*self, c0, q as int) by {
                        if automaton.accepts@.contains(q) {
                            let k = choose|k: int|
                                0 <= k < automaton.accepts@.len() && automaton.accepts@[k] == q;
                            assert(k == 0);
                        }
                        if q == accept {
                            assert(automaton.accepts@[0] == q);
                        }
                    }
                    assert(c1 == c0 + alloc_count(**left));
                    assert(start as int == c1 + alloc_count(**right));
                    assert(accept as int == start as int + 1);
                    assert forall|x: Edge|
                        automaton.transitions@.contains(x) <==> model_edge(
                            *self,
                            c0,
                            x.from as int,
                            x.label as int,
                            x.to as int,
                        ) by {
                        assert(left_automaton.transitions@.contains(x) <==> model_edge(
                            **left,
                            c0,
                            x.from as int,
                            x.label as int,
                            x.to as int,
                        ));
                        assert(right_automaton.transitions@.contains(x) <==> model_edge(
                            **right,
                            c1,
                            x.from as int,
                            x.label as int,
                            x.to as int,
                        ));
                        assert(left_automaton.accepts@.contains(x.from) <==> model_accepts(
                            **left,
                            c0,
                            x.from as int,
                        ));
                        assert(right_automaton.accepts@.contains(x.from) <==> model_accepts(
                            **right,
                            c1,
                            x.from as int,
                        ));
                        assert(base.contains(x) <==> left_automaton.transitions@.contains(x)
                            || right_automaton.transitions@.contains(x) || x == (Edge {
                            from: start,
                            label: EPSILON,
                            to: left_automaton.start,
                        }) || x == (Edge {
                            from: start,
                            label: EPSILON,
                            to: right_automaton.start,
                        })) by {
                            assert(!Seq::<Edge>::empty().contains(x));
                        }
                        if automaton.transitions@.contains(x) {
                            if !mid.contains(x) {
                                let k = choose|k: int|
                                    0 <= k < right_automaton.accepts@.len() && x == (Edge {
                                        from: right_automaton.accepts@[k],
                                        label: EPSILON,
                                        to: accept,
                                    });
                                assert(right_automaton.accepts@.contains(
                                    right_automaton.accepts@[k],
                                ));
                                assert(model_accepts(**right, c1, x.from as int));
                            } else if !base.contains(x) {
                                let k = choose|k: int|
                                    0 <= k < left_automaton.accepts@.len() && x == (Edge {
                                        from: left_automaton.accepts@[k],
                                        label: EPSILON,
                                        to: accept,
                                    });
                                assert(left_automaton.accepts@.contains(
                                    left_automaton.accepts@[k],
                                ));
                                assert(model_accepts(**left, c0, x.from as int));
                            }
                        } else {
                            if model_edge(*self, c0, x.from as int, x.label as int, x.to as int) {
                                if model_accepts(**left, c0, x.from as int) && x.label == EPSILON
                                    && x.to == accept {
                                    assert(left_automaton.accepts@.contains(x.from));
                                    let k = choose|k: int|
                                        0 <= k < left_automaton.accepts@.len()
                                            && left_automaton.accepts@[k] == x.from;
                                    assert(x == (Edge {
                                        from: left_automaton.accepts@[k],
                                        label: EPSILON,
                                        to: accept,
                                    }));
                                    assert(mid.contains(x));
                                    assert(automaton.transitions@.contains(x));
                                }
                                if model_accepts(**right, c1, x.from as int) && x.label == EPSILON
                                    && x.to == accept {
                                    assert(right_automaton.accepts@.contains(x.from));
                                    let k = choose|k: int|
                                        0 <= k < right_automaton.accepts@.len()
                                            && right_automaton.accepts@[k] == x.from;
                                    assert(x == (Edge {
                                        from: right_automaton.accepts@[k],
                                        label: EPSILON,
                                        to: accept,
                                    }));
                                    assert(automaton.transitions@.contains(x));
                                }
                            }
                        }
                    }
                }
                automaton
            },
            Node::Star(node) => {
                let inner = node.assemble(context);
                let start = context.next();
                let accept = context.next();
                let mut accepts = copy_states(&inner.accepts);
                proof {
                    assert(sorted_strict(accepts@)) by {
                        assert forall|a: int, b: int|
                            0 <= a < b < accepts@.len() implies accepts@[a] < accepts@[b] by {
                            assert(inner.accepts@[a] < inner.accepts@[b]);
                        }
                    }
                }
                insert_state(&mut accepts, accept);
                let mut automaton = Automaton::new(start, accepts);
                automaton.add_epsilon_transition(start, inner.start);
                automaton.add_epsilon_transition(start, accept);
                automaton.merge_transitions(&inner.transitions);
                let ghost base = automaton.transitions@;
                let ghost accepts0 = automaton.accepts@;
                let inner_start = inner.start;
                let mut i: usize = 0;
                while i < inner.accepts.len()
                    invariant
                        i <= inner.accepts@.len(),
                        automaton.wf(),
                        automaton.start == start,
                        automaton.accepts@ == accepts0,
                        forall|x: Edge|
                            #[trigger] automaton.transitions@.contains(x) <==> base.contains(x)
                                || exists|k: int|
                                0 <= k < i && x == (Edge {
                                    from: inner.accepts@[k],
                                    label: EPSILON,
                                    to: inner_start,
                                }),
                    decreases inner.accepts@.len() - i,
                {
                    let ghost prev = automaton.transitions@;
                    automaton.add_epsilon_transition(inner.accepts[i], inner_start);
                    proof {
                        assert forall|x: Edge|
                            #[trigger] automaton.transitions@.contains(x) <==> base.contains(x)
                                || exists|k: int|
                                0 <= k < i + 1 && x == (Edge {
                                    from: inner.accepts@[k],
                                    label: EPSILON,
                                    to: inner_start,
                                }) by {
                            if automaton.transitions@.contains(x) {
                                if !prev.contains(x) {
                                    assert(x == (Edge {
                                        from: inner.accepts@[i as int],
                                        label: EPSILON,
                                        to: inner_start,
                                    }));
                                } else if !base.contains(x) {
                                    let k = choose|k: int|
                                        0 <= k < i && x == (Edge {
                                            from: inner.accepts@[k],
                                            label: EPSILON,
                                            to: inner_start,
                                        });
                                    assert(0 <= k < i + 1 && x == (Edge {
                                        from: inner.accepts@[k],
                                        label: EPSILON,
                                        to: inner_start,
                                    }));
                                }
                            }
                            if exists|k: int|
                                0 <= k < i + 1 && x == (Edge {
                                    from: inner.accepts@[k],
                                    label: EPSILON,
                                    to: inner_start,
                                }) {
                                let k = choose|k: int|
                                    0 <= k < i + 1 && x == (Edge {
                                        from: inner.accepts@[k],
                                        label: EPSILON,
                                        to: inner_start,
                                    });
                                if k < i {
                                    assert(prev.contains(x));
                                }
                                assert(automaton.transitions@.contains(x));
                            }
                        }
                    }
                    i = i + 1;
                }
                proof {
                    assert forall|q: usize|
                        automaton.accepts@.contains(q) <==> model_accepts(*self, c0, q as int) by {
                        if inner.accepts@.contains(q) {
                            assert(model_accepts(**node, c0, q as int));
                        }
                        if model_accepts(**node, c0, q as int) {
                            assert(inner.accepts@.contains(q));
                        }
                    }
                    assert(start as int == c0 + alloc_count(**node));
                    assert(accept as int == start as int + 1);
                    assert forall|x: Edge|
                        automaton.transitions@.contains(x) <==> model_edge(
                            *self,
                            c0,
                            x.from as int,
                            x.label as int,
                            x.to as int,
                        ) by {
                        assert(inner.transitions@.contains(x) <==> model_edge(
                            **node,
                            c0,
                            x.from as int,
                            x.label as int,
                            x.to as int,
                        ));
                        assert(inner.accepts@.contains(x.from) <==> model_accepts(
                            **node,
                            c0,
                            x.from as int,
                        ));
                        assert(base.contains(x) <==> inner.transitions@.contains(x) || x == (Edge {
                            from: start,
                            label: EPSILON,
                            to: inner_start,
                        }) || x == (Edge {
                            from: start,
                            label: EPSILON,
                            to: accept,
                        })) by {
                            assert(!Seq::<Edge>::empty().contains(x));
                        }
                        if automaton.transitions@.contains(x) {
                            if !base.contains(x) {
                                let k = choose|k: int|
                                    0 <= k < inner.accepts@.len() && x == (Edge {
                                        from: inner.accepts@[k],
                                        label: EPSILON,
                                        to: inner_start,
                                    });
                                assert(inner.accepts@.contains(inner.accepts@[k]));
                                assert(model_accepts(**node, c0, x.from as int));
                            }
                        } else {
                            if model_edge(*self, c0, x.from as int, x.label as int, x.to as int) {
                                if model_accepts(**node, c0, x.from as int) && x.label == EPSILON
                                    && x.to == inner_start {
                                    assert(inner.accepts@.contains(x.from));
                                    let k = choose|k: int|
                                        0 <= k < inner.accepts@.len() && inner.accepts@[k]
                                            == x.from;
                                    assert(x == (Edge {
                                        from: inner.accepts@[k],
                                        label: EPSILON,
                                        to: inner_start,
                                    }));
                                    assert(automaton.transitions@.contains(x));
                                }
                            }
                        }
                    }
                }
                automaton
            },
        }
    }
}

} // verus!
