//! Deterministic finite automaton built by subset construction.
//!
//! A dedup [`Context`] maps each sorted set of NFA states to a numeric DFA
//! state, assigning fresh numbers in order of first appearance. The whole
//! construction is mirrored, step for step, by the spec functions
//! [`build_step`] and [`iterate`]: [`Automaton::from`] returns the state
//! that the iteration converges to ([`from_converges`]), and that state is
//! unique ([`lemma_from_converges_unique`]), so building the automaton from
//! one NFA twice yields identical numbering, accepting set and transitions.

use crate::nondeterministic_finite_automaton::{Automaton as Nfa, Edge, EPSILON};
use crate::sets::{
    copy_states, insert_state, intersects_states, lemma_distinct_bounded_len,
    lemma_sorted_strict_unique, lemma_spec_insert, sorted_strict, spec_insert, union_states,
    vec_eq_states,
};
use vstd::arithmetic::power2::{lemma_pow2_pos, lemma_pow2_strictly_increases, lemma_pow2_unfold, pow2};
use vstd::prelude::*;

verus! {

/// Whether a set of NFA states was newly numbered or seen before.
#[derive(Debug, Clone, PartialEq)]
pub enum Next {
    New(usize),
    Contains(usize),
}

/// The number carried by either variant.
pub open spec fn next_value(n: Next) -> usize {
    match n {
        Next::New(v) => v,
        Next::Contains(v) => v,
    }
}

impl Next {
    pub fn unwrap(self) -> (r: usize)
        ensures
            r == next_value(self),
    {
        match self {
            Self::New(n) => n,
            Self::Contains(n) => n,
        }
    }
}

/// The first position of `key` in `memo`, if any.
pub open spec fn lookup(memo: Seq<Seq<usize>>, key: Seq<usize>) -> Option<int>
    decreases memo.len(),
{
    if memo.len() == 0 {
        None
    } else if memo[0] == key {
        Some(0)
    } else {
        match lookup(memo.drop_first(), key) {
            Some(i) => Some(i + 1),
            None => None,
        }
    }
}

/// The first position of `key`, or `0` when it is absent.
pub open spec fn lookup_or_zero(memo: Seq<Seq<usize>>, key: Seq<usize>) -> int {
    match lookup(memo, key) {
        Some(i) => i,
        None => 0,
    }
}

pub proof fn lemma_lookup_first(memo: Seq<Seq<usize>>, key: Seq<usize>, i: int)
    requires
        0 <= i < memo.len(),
        memo[i] == key,
        forall|k: int| 0 <= k < i ==> memo[k] != key,
    ensures
        lookup(memo, key) == Some(i),
    decreases memo.len(),
{
    if memo[0] == key {
        assert(i == 0);
    } else {
        let rest = memo.drop_first();
        assert(rest[i - 1] == key);
        assert forall|k: int| 0 <= k < i - 1 implies rest[k] != key by {
            assert(memo[k + 1] != key);
        }
        lemma_lookup_first(rest, key, i - 1);
    }
}

pub proof fn lemma_lookup_none(memo: Seq<Seq<usize>>, key: Seq<usize>)
    requires
        forall|k: int| 0 <= k < memo.len() ==> memo[k] != key,
    ensures
        lookup(memo, key) is None,
    decreases memo.len(),
{
    if memo.len() > 0 {
        let rest = memo.drop_first();
        assert forall|k: int| 0 <= k < rest.len() implies rest[k] != key by {
            assert(memo[k + 1] != key);
        }
        lemma_lookup_none(rest, key);
    }
}

pub proof fn lemma_lookup_some(memo: Seq<Seq<usize>>, key: Seq<usize>)
    ensures
        match lookup(memo, key) {
            Some(i) => 0 <= i < memo.len() && memo[i] == key,
            None => !memo.contains(key),
        },
    decreases memo.len(),
{
    if memo.len() == 0 {
        assert(!memo.contains(key));
    } else if memo[0] == key {
    } else {
        lemma_lookup_some(memo.drop_first(), key);
        if lookup(memo, key) is None {
            assert(!memo.contains(key)) by {
                if memo.contains(key) {
                    let k = choose|k: int| 0 <= k < memo.len() && memo[k] == key;
                    assert(memo.drop_first()[k - 1] == key);
                    assert(memo.drop_first().contains(key));
                }
            }
        }
    }
}

/// Maps each sorted, deduplicated set of NFA state identifiers to the DFA
/// state number assigned at its first appearance.
#[derive(Debug, Clone, PartialEq)]
pub struct Context {
    pub current: usize,
    pub transitions: Vec<(Vec<usize>, usize)>,
}

/// The memoized keys, in assignment order; the number of a key is its
/// position.
pub open spec fn ctx_view(c: Context) -> Seq<Seq<usize>> {
    Seq::new(c.transitions@.len() as nat, |k: int| c.transitions@[k].0@)
}

impl Context {
    /// The representation invariant: numbers are dense positions.
    pub open spec fn wf(self) -> bool {
        &&& self.current == self.transitions@.len()
        &&& forall|k: int|
            0 <= k < self.transitions@.len() ==> #[trigger] self.transitions@[k].1 == k
    }

    pub fn new() -> (r: Self)
        ensures
            r.wf(),
            ctx_view(r) == Seq::<Seq<usize>>::empty(),
    {
        let r = Context { current: 0, transitions: Vec::new() };
        proof {
            assert(ctx_view(r) =~= Seq::<Seq<usize>>::empty());
        }
        r
    }

    /// The number of `destinations`: the one recorded at its first
    /// appearance, or a fresh one, recording the set.
    pub fn next(&mut self, destinations: &Vec<usize>) -> (r: Next)
        requires
            old(self).wf(),
        ensures
            final(self).wf(),
            match lookup(ctx_view(*old(self)), destinations@) {
                Some(i) => r == Next::Contains(i as usize) && *final(self) == *old(self),
                None => r == Next::New(old(self).transitions@.len() as usize) && ctx_view(
                    *final(self),
                ) == ctx_view(*old(self)).push(destinations@) && final(self).transitions@.len()
                    == old(self).transitions@.len() + 1,
            },
    {
        let ghost memo = ctx_view(*self);
        let mut i: usize = 0;
        while i < self.transitions.len()
            invariant
                i <= self.transitions@.len(),
                *self == *old(self),
                old(self).wf(),
                memo == ctx_view(*self),
                forall|k: int| 0 <= k < i ==> ctx_view(*self)[k] != destinations@,
            decreases self.transitions@.len() - i,
        {
            let hit = vec_eq_states(&self.transitions[i].0, destinations);
            if hit {
                proof {
                    assert(memo[i as int] == destinations@);
                    lemma_lookup_first(memo, destinations@, i as int);
                    assert(old(self).transitions@[i as int].1 == i as int);
                    assert(self.transitions@[i as int].1 == i as int);
                    assert forall|k: int|
                        0 <= k < self.transitions@.len() implies #[trigger] self.transitions@[k].1
                        == k by {
                        assert(old(self).transitions@[k].1 == k);
                    }
                }
                return Next::Contains(self.transitions[i].1);
            }
            i = i + 1;
        }
        proof {
            lemma_lookup_none(memo, destinations@);
        }
        let current = self.current;
        let key = copy_states(destinations);
        self.transitions.push((key, current));
        self.current = self.transitions.len();
        proof {
            assert(ctx_view(*self) =~= memo.push(destinations@));
            assert forall|k: int|
                0 <= k < self.transitions@.len() implies #[trigger] self.transitions@[k].1 == k
                by {
                if k < self.transitions@.len() - 1 {
                    assert(self.transitions@[k] == old(self).transitions@[k]);
                }
            }
        }
        Next::New(current)
    }
}

/// One transition of the deterministic automaton; `symbol` is the encoded
/// code point, as in the NFA.
#[derive(Debug, Clone, Copy, PartialEq, Eq)]
pub struct DfaEdge {
    pub from: usize,
    pub symbol: usize,
    pub to: usize,
}

/// A deterministic finite automaton.
#[derive(Debug, Clone, PartialEq)]
pub struct Automaton {
    pub start: usize,
    pub accepts: Vec<usize>,
    pub transitions: Vec<DfaEdge>,
}

/// The whole state of one subset construction in flight.
pub struct BuildState {
    pub memo: Seq<Seq<usize>>,
    pub queue: Seq<Seq<usize>>,
    pub accepts: Seq<usize>,
    pub edges: Seq<DfaEdge>,
}

/// The labels, epsilon excluded, of NFA transitions leaving `set`, as a
/// sorted listing.
pub open spec fn chars_fold(ts: Seq<Edge>, set: Seq<usize>) -> Seq<usize>
    decreases ts.len(),
{
    if ts.len() == 0 {
        Seq::empty()
    } else {
        let rest = chars_fold(ts.drop_last(), set);
        let e = ts.last();
        if set.contains(e.from) && e.label != EPSILON {
            spec_insert(rest, e.label)
        } else {
            rest
        }
    }
}

pub proof fn lemma_chars_fold(ts: Seq<Edge>, set: Seq<usize>)
    ensures
        sorted_strict(chars_fold(ts, set)),
        forall|lab: usize|
            chars_fold(ts, set).contains(lab) <==> lab != EPSILON && exists|e: Edge|
                #[trigger] ts.contains(e) && e.label == lab && set.contains(e.from),
    decreases ts.len(),
{
    let r = chars_fold(ts, set);
    if ts.len() == 0 {
        assert forall|lab: usize|
            r.contains(lab) <==> lab != EPSILON && exists|e: Edge|
                #[trigger] ts.contains(e) && e.label == lab && set.contains(e.from) by {
            if lab != EPSILON && exists|e: Edge|
                #[trigger] ts.contains(e) && e.label == lab && set.contains(e.from) {
                let e = choose|e: Edge|
                    #[trigger] ts.contains(e) && e.label == lab && set.contains(e.from);
                let k = choose|k: int| 0 <= k < ts.len() && ts[k] == e;
                assert(false);
            }
        }
    } else {
        let body = ts.drop_last();
        let e0 = ts.last();
        lemma_chars_fold(body, set);
        let rest = chars_fold(body, set);
        if set.contains(e0.from) && e0.label != EPSILON {
            lemma_spec_insert(rest, e0.label);
        }
        assert forall|lab: usize|
            r.contains(lab) <==> lab != EPSILON && exists|e: Edge|
                #[trigger] ts.contains(e) && e.label == lab && set.contains(e.from) by {
            if r.contains(lab) {
                if rest.contains(lab) {
                    let e = choose|e: Edge|
                        #[trigger] body.contains(e) && e.label == lab && set.contains(e.from);
                    let k = choose|k: int| 0 <= k < body.len() && body[k] == e;
                    assert(ts[k] == e);
                    assert(ts.contains(e));
                } else {
                    assert(set.contains(e0.from) && e0.label != EPSILON && lab == e0.label);
                    assert(ts[ts.len() - 1] == e0);
                    assert(ts.contains(e0));
                }
            }
            if lab != EPSILON && exists|e: Edge|
                #[trigger] ts.contains(e) && e.label == lab && set.contains(e.from) {
                let e = choose|e: Edge|
                    #[trigger] ts.contains(e) && e.label == lab && set.contains(e.from);
                let k = choose|k: int| 0 <= k < ts.len() && ts[k] == e;
                if k < ts.len() - 1 {
                    assert(body[k] == e);
                    assert(body.contains(e));
                    assert(rest.contains(lab));
                } else {
                    assert(e == e0);
                }
                assert(r.contains(lab));
            }
        }
    }
}

/// The NFA states reached from `set` on `lab`, as a sorted listing.
pub open spec fn dests_fold(ts: Seq<Edge>, set: Seq<usize>, lab: usize) -> Seq<usize>
    decreases ts.len(),
{
    if ts.len() == 0 {
        Seq::empty()
    } else {
        let rest = dests_fold(ts.drop_last(), set, lab);
        let e = ts.last();
        if set.contains(e.from) && e.label == lab {
            spec_insert(rest, e.to)
        } else {
            rest
        }
    }
}

pub proof fn lemma_dests_fold(ts: Seq<Edge>, set: Seq<usize>, lab: usize)
    ensures
        sorted_strict(dests_fold(ts, set, lab)),
        forall|t: usize|
            dests_fold(ts, set, lab).contains(t) <==> exists|m: usize|
                #[trigger] set.contains(m) && ts.contains((Edge { from: m, label: lab, to: t })),
    decreases ts.len(),
{
    let r = dests_fold(ts, set, lab);
    if ts.len() == 0 {
        assert forall|t: usize|
            r.contains(t) <==> exists|m: usize|
                #[trigger] set.contains(m) && ts.contains((Edge { from: m, label: lab, to: t }))
            by {
            if exists|m: usize|
                #[trigger] set.contains(m) && ts.contains((Edge { from: m, label: lab, to: t })) {
                let m = choose|m: usize|
                    #[trigger] set.contains(m) && ts.contains((Edge { from: m, label: lab, to: t }));
                let k = choose|k: int|
                    0 <= k < ts.len() && ts[k] == (Edge { from: m, label: lab, to: t });
                assert(false);
            }
        }
    } else {
        let body = ts.drop_last();
        let e0 = ts.last();
        lemma_dests_fold(body, set, lab);
        let rest = dests_fold(body, set, lab);
        if set.contains(e0.from) && e0.label == lab {
            lemma_spec_insert(rest, e0.to);
        }
        assert forall|t: usize|
            r.contains(t) <==> exists|m: usize|
                #[trigger] set.contains(m) && ts.contains((Edge { from: m, label: lab, to: t }))
            by {
            if r.contains(t) {
                if rest.contains(t) {
                    let m = choose|m: usize|
                        #[trigger] set.contains(m) && body.contains(
                            (Edge { from: m, label: lab, to: t }),
                        );
                    let k = choose|k: int|
                        0 <= k < body.len() && body[k] == (Edge { from: m, label: lab, to: t });
                    assert(ts[k] == (Edge { from: m, label: lab, to: t }));
                    assert(ts.contains((Edge { from: m, label: lab, to: t })));
                } else {
                    assert(set.contains(e0.from) && e0.label == lab && t == e0.to);
                    assert(ts[ts.len() - 1] == e0);
                    assert(ts.contains((Edge { from: e0.from, label: lab, to: t })));
                }
            }
            if exists|m: usize|
                #[trigger] set.contains(m) && ts.contains((Edge { from: m, label: lab, to: t })) {
                let m = choose|m: usize|
                    #[trigger] set.contains(m) && ts.contains((Edge { from: m, label: lab, to: t }));
                let k = choose|k: int|
                    0 <= k < ts.len() && ts[k] == (Edge { from: m, label: lab, to: t });
                if k < ts.len() - 1 {
                    assert(body[k] == (Edge { from: m, label: lab, to: t }));
                    assert(body.contains((Edge { from: m, label: lab, to: t })));
                    assert(rest.contains(t));
                } else {
                    assert(e0 == (Edge { from: m, label: lab, to: t }));
                }
                assert(r.contains(t));
            }
        }
    }
}

/// Process the remaining labels of one popped set: record an edge for each
/// label with a nonempty destination set, numbering fresh sets and queueing
/// them for expansion.
pub open spec fn step_chars(
    ts: Seq<Edge>,
    set: Seq<usize>,
    from_id: int,
    chars: Seq<usize>,
    st: BuildState,
) -> BuildState
    decreases chars.len(),
{
    if chars.len() == 0 {
        st
    } else {
        let lab = chars[0];
        let dests = dests_fold(ts, set, lab);
        let st2 = if dests.len() == 0 {
            st
        } else {
            match lookup(st.memo, dests) {
                Some(to) => BuildState {
                    edges: st.edges.push(
                        DfaEdge { from: from_id as usize, symbol: lab, to: to as usize },
                    ),
                    ..st
                },
                None => BuildState {
                    memo: st.memo.push(dests),
                    queue: st.queue.push(dests),
                    accepts: st.accepts,
                    edges: st.edges.push(
                        DfaEdge {
                            from: from_id as usize,
                            symbol: lab,
                            to: st.memo.len() as usize,
                        },
                    ),
                },
            }
        };
        step_chars(ts, set, from_id, chars.drop_first(), st2)
    }
}

/// Expand one pending set: pop it, mark its number accepting when it meets
/// the NFA's accepting set, then take every label out of it.
pub open spec fn build_step(ts: Seq<Edge>, nfa_accepts: Seq<usize>, st: BuildState) -> BuildState {
    if st.queue.len() == 0 {
        st
    } else {
        let set = st.queue.last();
        let from_id = lookup_or_zero(st.memo, set);
        let accepts2 = if exists|y: usize| #[trigger] set.contains(y) && nfa_accepts.contains(y) {
            spec_insert(st.accepts, from_id as usize)
        } else {
            st.accepts
        };
        let st2 = BuildState {
            memo: st.memo,
            queue: st.queue.drop_last(),
            accepts: accepts2,
            edges: st.edges,
        };
        step_chars(ts, set, from_id, chars_fold(ts, set), st2)
    }
}

/// `k` expansion steps from `st`.
pub open spec fn iterate(ts: Seq<Edge>, nfa_accepts: Seq<usize>, st: BuildState, k: nat) -> BuildState
    decreases k,
{
    if k == 0 {
        st
    } else {
        iterate(ts, nfa_accepts, build_step(ts, nfa_accepts, st), (k - 1) as nat)
    }
}

/// The state before any expansion: the singleton set of the NFA start state
/// is numbered `0` and pending.
pub open spec fn init_state(n: Nfa) -> BuildState {
    BuildState {
        memo: seq![seq![n.start]],
        queue: seq![seq![n.start]],
        accepts: Seq::empty(),
        edges: Seq::empty(),
    }
}

/// `d` is the result that the subset construction of `n` converges to.
pub open spec fn from_converges(n: Nfa, d: Automaton) -> bool {
    exists|k: nat|
        {
            let st = iterate(n.transitions@, n.accepts@, init_state(n), k);
            #[trigger] iterate(n.transitions@, n.accepts@, init_state(n), k).queue.len() == 0
                && d.start == 0 && d.accepts@ == st.accepts && d.transitions@ == st.edges
        }
}

/// Once the queue is empty, further steps change nothing.
pub proof fn lemma_iterate_stable(ts: Seq<Edge>, nfa_accepts: Seq<usize>, st: BuildState, k: nat)
    requires
        st.queue.len() == 0,
    ensures
        iterate(ts, nfa_accepts, st, k) == st,
    decreases k,
{
    if k > 0 {
        assert(build_step(ts, nfa_accepts, st) == st);
        lemma_iterate_stable(ts, nfa_accepts, build_step(ts, nfa_accepts, st), (k - 1) as nat);
    }
}

pub proof fn lemma_iterate_add(
    ts: Seq<Edge>,
    nfa_accepts: Seq<usize>,
    st: BuildState,
    k1: nat,
    k2: nat,
)
    ensures
        iterate(ts, nfa_accepts, iterate(ts, nfa_accepts, st, k1), k2) == iterate(
            ts,
            nfa_accepts,
            st,
            k1 + k2,
        ),
    decreases k1,
{
    if k1 > 0 {
        lemma_iterate_add(ts, nfa_accepts, build_step(ts, nfa_accepts, st), (k1 - 1) as nat, k2);
    }
}

/// The subset construction has one result: any two automata it converges to
/// have the same start, the same accepting numbers and the same transitions.
pub proof fn lemma_from_converges_unique(n: Nfa, d1: Automaton, d2: Automaton)
    requires
        from_converges(n, d1),
        from_converges(n, d2),
    ensures
        d1.start == d2.start,
        d1.accepts@ == d2.accepts@,
        d1.transitions@ == d2.transitions@,
{
    let ts = n.transitions@;
    let accs = n.accepts@;
    let k1 = choose|k: nat|
        {
            let st = iterate(ts, accs, init_state(n), k);
            #[trigger] iterate(ts, accs, init_state(n), k).queue.len() == 0 && d1.start == 0
                && d1.accepts@ == st.accepts && d1.transitions@ == st.edges
        };
    let k2 = choose|k: nat|
        {
            let st = iterate(ts, accs, init_state(n), k);
            #[trigger] iterate(ts, accs, init_state(n), k).queue.len() == 0 && d2.start == 0
                && d2.accepts@ == st.accepts && d2.transitions@ == st.edges
        };
    let s1 = iterate(ts, accs, init_state(n), k1);
    let s2 = iterate(ts, accs, init_state(n), k2);
    lemma_iterate_add(ts, accs, init_state(n), k1, k2);
    lemma_iterate_add(ts, accs, init_state(n), k2, k1);
    lemma_iterate_stable(ts, accs, s1, k2);
    lemma_iterate_stable(ts, accs, s2, k1);
    assert(iterate(ts, accs, init_state(n), k1 + k2) == s1);
    assert(iterate(ts, accs, init_state(n), k2 + k1) == s2);
    assert(k1 + k2 == k2 + k1);
}

/// The bit encoding of a sorted set of state identifiers.
pub open spec fn encode_set(s: Seq<usize>) -> int
    decreases s.len(),
{
    if s.len() == 0 {
        0
    } else {
        encode_set(s.drop_last()) + pow2(s.last() as nat)
    }
}

pub proof fn lemma_encode_bound(s: Seq<usize>, b: nat)
    requires
        sorted_strict(s),
        forall|i: int| 0 <= i < s.len() ==> #[trigger] s[i] < b,
    ensures
        0 <= encode_set(s) < pow2(b),
    decreases s.len(),
{
    lemma_pow2_pos(b);
    if s.len() > 0 {
        let body = s.drop_last();
        let top = s.last();
        assert(s[s.len() - 1] == top);
        assert((top as nat) < b);
        assert forall|i: int| 0 <= i < body.len() implies #[trigger] body[i] < top by {
            assert(s[i] < s[s.len() - 1]);
        }
        lemma_encode_bound(body, top as nat);
        assert(encode_set(s) < pow2(top as nat) + pow2(top as nat));
        lemma_pow2_unfold((top + 1) as nat);
        assert(pow2((top + 1) as nat) == 2 * pow2(top as nat));
        if top + 1 < b {
            lemma_pow2_strictly_increases((top + 1) as nat, b);
        }
    }
}

pub proof fn lemma_encode_injective(s1: Seq<usize>, s2: Seq<usize>)
    requires
        sorted_strict(s1),
        sorted_strict(s2),
        encode_set(s1) == encode_set(s2),
    ensures
        s1 == s2,
    decreases s1.len() + s2.len(),
{
    if s1.len() == 0 && s2.len() == 0 {
        assert(s1 =~= s2);
    } else if s1.len() == 0 {
        let top = s2.last();
        assert forall|i: int| 0 <= i < s2.drop_last().len() implies #[trigger] s2.drop_last()[i]
            < top by {
            assert(s2[i] < s2[s2.len() - 1]);
        }
        lemma_encode_bound(s2.drop_last(), top as nat);
        lemma_pow2_pos(top as nat);
        assert(encode_set(s2) > 0);
    } else if s2.len() == 0 {
        let top = s1.last();
        assert forall|i: int| 0 <= i < s1.drop_last().len() implies #[trigger] s1.drop_last()[i]
            < top by {
            assert(s1[i] < s1[s1.len() - 1]);
        }
        lemma_encode_bound(s1.drop_last(), top as nat);
        lemma_pow2_pos(top as nat);
        assert(encode_set(s1) > 0);
    } else {
        let t1 = s1.last();
        let t2 = s2.last();
        assert forall|i: int| 0 <= i < s1.drop_last().len() implies #[trigger] s1.drop_last()[i]
            < t1 by {
            assert(s1[i] < s1[s1.len() - 1]);
        }
        assert forall|i: int| 0 <= i < s2.drop_last().len() implies #[trigger] s2.drop_last()[i]
            < t2 by {
            assert(s2[i] < s2[s2.len() - 1]);
        }
        assert(sorted_strict(s1.drop_last()));
        assert(sorted_strict(s2.drop_last()));
        if t1 == t2 {
            lemma_encode_injective(s1.drop_last(), s2.drop_last());
            assert(s1 =~= s1.drop_last().push(t1));
            assert(s2 =~= s2.drop_last().push(t2));
        } else if t1 < t2 {
            lemma_encode_bound(s1.drop_last(), t1 as nat);
            lemma_encode_bound(s2.drop_last(), t2 as nat);
            assert(encode_set(s1) < pow2(t1 as nat) + pow2(t1 as nat));
            lemma_pow2_unfold((t1 + 1) as nat);
            assert(pow2((t1 + 1) as nat) == 2 * pow2(t1 as nat));
            if t1 + 1 < t2 {
                lemma_pow2_strictly_increases((t1 + 1) as nat, t2 as nat);
            }
            assert(encode_set(s1) < pow2(t2 as nat));
            assert(encode_set(s2) >= pow2(t2 as nat));
        } else {
            lemma_encode_bound(s2.drop_last(), t2 as nat);
            lemma_encode_bound(s1.drop_last(), t1 as nat);
            lemma_pow2_unfold((t2 + 1) as nat);
            assert(pow2((t2 + 1) as nat) == 2 * pow2(t2 as nat));
            if t2 + 1 < t1 {
                lemma_pow2_strictly_increases((t2 + 1) as nat, t1 as nat);
            }
            assert(encode_set(s2) < pow2(t1 as nat));
            assert(encode_set(s1) >= pow2(t1 as nat));
        }
    }
}

/// Pairwise distinct sorted sets over `[0, b)` number at most `pow2(b)`.
pub proof fn lemma_memo_bound(memo: Seq<Seq<usize>>, b: nat)
    requires
        forall|i: int| 0 <= i < memo.len() ==> sorted_strict(#[trigger] memo[i]),
        forall|i: int, j: int|
            0 <= i < memo.len() && 0 <= j < memo[i].len() ==> #[trigger] memo[i][j] < b,
        forall|i: int, j: int|
            0 <= i < memo.len() && 0 <= j < memo.len() && i != j ==> memo[i] != memo[j],
    ensures
        memo.len() <= pow2(b),
{
    let w = Seq::new(memo.len(), |i: int| encode_set(memo[i]));
    assert forall|i: int| 0 <= i < w.len() implies 0 <= #[trigger] w[i] < pow2(b) by {
        assert forall|j: int| 0 <= j < memo[i].len() implies #[trigger] memo[i][j] < b by {}
        lemma_encode_bound(memo[i], b);
    }
    assert(w.no_duplicates()) by {
        assert forall|i: int, j: int|
            0 <= i < w.len() && 0 <= j < w.len() && i != j implies w[i] != w[j] by {
            if w[i] == w[j] {
                lemma_encode_injective(memo[i], memo[j]);
            }
        }
    }
    lemma_distinct_bounded_len(w, 0, pow2(b) as int);
}

/// An exclusive upper bound on every state identifier the NFA mentions as a
/// start state or a transition target.
pub open spec fn targets_bound(ts: Seq<Edge>) -> int
    decreases ts.len(),
{
    if ts.len() == 0 {
        0
    } else {
        let rest = targets_bound(ts.drop_last());
        if ts.last().to + 1 > rest {
            ts.last().to + 1
        } else {
            rest
        }
    }
}

pub proof fn lemma_targets_bound(ts: Seq<Edge>)
    ensures
        forall|i: int| 0 <= i < ts.len() ==> #[trigger] ts[i].to < targets_bound(ts),
        targets_bound(ts) >= 0,
    decreases ts.len(),
{
    if ts.len() > 0 {
        lemma_targets_bound(ts.drop_last());
        assert forall|i: int| 0 <= i < ts.len() implies #[trigger] ts[i].to < targets_bound(ts)
            by {
            if i < ts.len() - 1 {
                assert(ts.drop_last()[i] == ts[i]);
                assert(ts[i].to < targets_bound(ts.drop_last()));
            }
        }
    }
}

/// The bound used for termination: every set the construction handles lives
/// below it.
pub open spec fn state_bound(n: Nfa) -> int {
    if n.start + 1 > targets_bound(n.transitions@) {
        n.start + 1
    } else {
        targets_bound(n.transitions@)
    }
}

/// The views of a vector of state sets.
pub open spec fn vecs_view(s: Seq<Vec<usize>>) -> Seq<Seq<usize>> {
    Seq::new(s.len(), |i: int| s[i]@)
}

/// The construction state the executable variables stand for.
pub open spec fn exec_state(c: Context, q: Seq<Vec<usize>>, acc: Seq<usize>, ed: Seq<DfaEdge>) -> BuildState {
    BuildState { memo: ctx_view(c), queue: vecs_view(q), accepts: acc, edges: ed }
}

/// Keys are sorted, bounded and pairwise distinct.
pub open spec fn memo_wf(memo: Seq<Seq<usize>>, bound: int) -> bool {
    &&& forall|i: int| 0 <= i < memo.len() ==> sorted_strict(#[trigger] memo[i])
    &&& forall|i: int, j: int|
        0 <= i < memo.len() && 0 <= j < memo[i].len() ==> #[trigger] memo[i][j] < bound
    &&& forall|i: int, j: int|
        0 <= i < memo.len() && 0 <= j < memo.len() && i != j ==> memo[i] != memo[j]
}

impl Automaton {
    /// Hopcroft minimization is a deferred enhancement; the automaton the
    /// subset construction yields is already correct, only possibly larger
    /// than necessary, so this leaves it unchanged.
    pub fn minimize(&mut self)
        ensures
            *final(self) == *old(self),
    {
    }

    /// Subset construction over an epsilon-free NFA: the result is the one
    /// state the stepwise construction [`build_step`] converges to.
    #[verifier::loop_isolation(false)]
    pub fn from(nfa: Nfa) -> (r: Automaton)
        ensures
            from_converges(nfa, r),
    {
        let ghost ts = nfa.transitions@;
        let ghost accs = nfa.accepts@;
        let ghost bound = state_bound(nfa);
        proof {
            lemma_targets_bound(ts);
        }
        let mut context = Context::new();
        let mut start_set: Vec<usize> = Vec::new();
        start_set.push(nfa.start);
        proof {
            assert(start_set@ =~= seq![nfa.start]);
        }
        let start = context.next(&start_set).unwrap();
        proof {
            lemma_lookup_none(Seq::<Seq<usize>>::empty(), start_set@);
        }
        let mut queue: Vec<Vec<usize>> = Vec::new();
        queue.push(start_set);
        let mut accepts: Vec<usize> = Vec::new();
        let mut transitions: Vec<DfaEdge> = Vec::new();
        let ghost mut steps: nat = 0;
        proof {
            assert(ctx_view(context) =~= init_state(nfa).memo);
            assert(vecs_view(queue@) =~= init_state(nfa).queue);
            assert(exec_state(context, queue@, accepts@, transitions@) == init_state(nfa)) by {
                assert(accepts@ =~= Seq::<usize>::empty());
                assert(transitions@ =~= Seq::<DfaEdge>::empty());
            }
            assert(iterate(ts, accs, init_state(nfa), 0) == init_state(nfa));
            assert(memo_wf(ctx_view(context), bound)) by {
                assert forall|i: int|
                    0 <= i < ctx_view(context).len() implies sorted_strict(
                    #[trigger] ctx_view(context)[i],
                ) by {
                    assert(ctx_view(context)[i] == seq![nfa.start]);
                }
                assert forall|i: int, j: int|
                    0 <= i < ctx_view(context).len() && 0 <= j < ctx_view(context)[i].len()
                    implies #[trigger] ctx_view(context)[i][j] < bound by {
                    assert(ctx_view(context)[i][j] == nfa.start);
                }
            }
            assert(ctx_view(context).len() <= pow2(bound as nat)) by {
                lemma_memo_bound(ctx_view(context), bound as nat);
            }
            assert forall|i: int|
                0 <= i < queue@.len() implies ctx_view(context).contains(#[trigger] queue@[i]@)
                by {
                assert(ctx_view(context)[0] == queue@[0]@);
            }
        }
        while queue.len() > 0
            invariant
                context.wf(),
                memo_wf(ctx_view(context), bound),
                ctx_view(context).len() <= pow2(bound as nat),
                forall|i: int|
                    0 <= i < queue@.len() ==> ctx_view(context).contains(#[trigger] queue@[i]@),
                sorted_strict(accepts@),
                iterate(ts, accs, init_state(nfa), steps) == exec_state(
                    context,
                    queue@,
                    accepts@,
                    transitions@,
                ),
            decreases 2 * (pow2(bound as nat) - ctx_view(context).len()) + queue@.len(),
        {
            let ghost st0 = exec_state(context, queue@, accepts@, transitions@);
            let ghost memo_len0 = ctx_view(context).len();
            let ghost queue_len0 = queue@.len();
            let ghost queue_before = queue@;
            let set = match queue.pop() {
                Some(s) => s,
                None => {
                    proof {
                        // the queue was just seen to be nonempty
                        assert(false);
                    }
                    Vec::new()
                },
            };
            proof {
                assert(set@ == st0.queue.last());
                assert(vecs_view(queue@) =~= st0.queue.drop_last());
                assert(ctx_view(context).contains(queue_before[queue_before.len() - 1]@));
                assert(sorted_strict(set@)) by {
                    let p = choose|p: int|
                        0 <= p < ctx_view(context).len() && ctx_view(context)[p] == set@;
                    assert(sorted_strict(ctx_view(context)[p]));
                }
            }
            let ghost memo0 = ctx_view(context);
            proof {
                lemma_lookup_some(memo0, set@);
            }
            let from_id = context.next(&set).unwrap();
            proof {
                assert(ctx_view(context) == memo0);
                assert(from_id as int == lookup_or_zero(memo0, set@));
            }
            if intersects_states(&set, &nfa.accepts) {
                insert_state(&mut accepts, from_id);
            }
            proof {
                let st2 = BuildState {
                    memo: st0.memo,
                    queue: st0.queue.drop_last(),
                    accepts: if exists|y: usize|
                        #[trigger] set@.contains(y) && accs.contains(y) {
                        spec_insert(st0.accepts, (from_id as int) as usize)
                    } else {
                        st0.accepts
                    },
                    edges: st0.edges,
                };
                assert(exec_state(context, queue@, accepts@, transitions@) == st2);
            }
            let ghost st_mid = exec_state(context, queue@, accepts@, transitions@);
            let chars = nfa.calc_chars_without_epsilon_transitions(Some(&set));
            proof {
                lemma_chars_fold(ts, set@);
                assert forall|lab: usize|
                    chars@.contains(lab) <==> chars_fold(ts, set@).contains(lab) by {}
                lemma_sorted_strict_unique(chars@, chars_fold(ts, set@));
            }
            let ghost target = step_chars(ts, set@, from_id as int, chars@, st_mid);
            proof {
                assert(chars@.subrange(0, chars@.len() as int) =~= chars@);
            }
            let ghost memo_mid = ctx_view(context).len();
            let ghost queue_mid = queue@.len();
            let mut ci: usize = 0;
            while ci < chars.len()
                invariant
                    ci <= chars@.len(),
                    context.wf(),
                    memo_wf(ctx_view(context), bound),
                    ctx_view(context).len() <= pow2(bound as nat),
                    forall|i: int|
                        0 <= i < queue@.len() ==> ctx_view(context).contains(
                            #[trigger] queue@[i]@,
                        ),
                    sorted_strict(accepts@),
                    accepts@ == st_mid.accepts,
                    step_chars(
                        ts,
                        set@,
                        from_id as int,
                        chars@.subrange(ci as int, chars@.len() as int),
                        exec_state(context, queue@, accepts@, transitions@),
                    ) == target,
                    ctx_view(context).len() - memo_mid == queue@.len() - queue_mid,
                    ctx_view(context).len() >= memo_mid,
                decreases chars@.len() - ci,
            {
                let lab = chars[ci];
                let mut dests: Vec<usize> = Vec::new();
                let mut m: usize = 0;
                while m < set.len()
                    invariant
                        m <= set@.len(),
                        sorted_strict(dests@),
                        forall|t: usize|
                            #[trigger] dests@.contains(t) <==> exists|k: int|
                                0 <= k < m && ts.contains(
                                    (Edge { from: set@[k], label: lab, to: t }),
                                ),
                    decreases set@.len() - m,
                {
                    let d = nfa.calc_destinations(set[m], lab);
                    let ghost prev = dests@;
                    union_states(&mut dests, &d);
                    proof {
                        assert forall|t: usize|
                            #[trigger] dests@.contains(t) <==> exists|k: int|
                                0 <= k < m + 1 && ts.contains(
                                    (Edge { from: set@[k], label: lab, to: t }),
                                ) by {
                            if dests@.contains(t) {
                                if prev.contains(t) {
                                    let k = choose|k: int|
                                        0 <= k < m && ts.contains(
                                            (Edge { from: set@[k], label: lab, to: t }),
                                        );
                                    assert(0 <= k < m + 1 && ts.contains(
                                        (Edge { from: set@[k], label: lab, to: t }),
                                    ));
                                } else {
                                    assert(d@.contains(t));
                                    assert(ts.contains(
                                        (Edge { from: set@[m as int], label: lab, to: t }),
                                    ));
                                }
                            }
                            if exists|k: int|
                                0 <= k < m + 1 && ts.contains(
                                    (Edge { from: set@[k], label: lab, to: t }),
                                ) {
                                let k = choose|k: int|
                                    0 <= k < m + 1 && ts.contains(
                                        (Edge { from: set@[k], label: lab, to: t }),
                                    );
                                if k < m {
                                    assert(prev.contains(t));
                                } else {
                                    assert(d@.contains(t));
                                }
                                assert(dests@.contains(t));
                            }
                        }
                    }
                    m = m + 1;
                }
                proof {
                    lemma_dests_fold(ts, set@, lab);
                    assert forall|t: usize|
                        dests@.contains(t) <==> dests_fold(ts, set@, lab).contains(t) by {
                        if dests@.contains(t) {
                            let k = choose|k: int|
                                0 <= k < set@.len() && ts.contains(
                                    (Edge { from: set@[k], label: lab, to: t }),
                                );
                            assert(set@.contains(set@[k]));
                        }
                        if dests_fold(ts, set@, lab).contains(t) {
                            let mm = choose|mm: usize|
                                #[trigger] set@.contains(mm) && ts.contains(
                                    (Edge { from: mm, label: lab, to: t }),
                                );
                            let k = choose|k: int| 0 <= k < set@.len() && set@[k] == mm;
                            assert(ts.contains((Edge { from: set@[k], label: lab, to: t })));
                        }
                    }
                    lemma_sorted_strict_unique(dests@, dests_fold(ts, set@, lab));
                }
                let ghost pre_memo = ctx_view(context);
                let ghost pre_state = exec_state(context, queue@, accepts@, transitions@);
                let ghost dv = dests@;
                if dests.len() > 0 {
                    proof {
                        lemma_lookup_some(pre_memo, dv);
                    }
                    let outcome = context.next(&dests);
                    match outcome {
                        Next::New(to) => {
                            queue.push(dests);
                            transitions.push(DfaEdge { from: from_id, symbol: lab, to });
                            proof {
                                assert(lookup(pre_memo, dv) is None);
                                assert(to == pre_memo.len());
                                assert(ctx_view(context) == pre_memo.push(dv));
                                assert(vecs_view(queue@) =~= pre_state.queue.push(dv));
                                assert(memo_wf(ctx_view(context), bound)) by {
                                    assert forall|i: int|
                                        0 <= i < ctx_view(context).len() implies sorted_strict(
                                        #[trigger] ctx_view(context)[i],
                                    ) by {
                                        if i < pre_memo.len() {
                                            assert(ctx_view(context)[i] == pre_memo[i]);
                                        } else {
                                            assert(ctx_view(context)[i] == dv);
                                        }
                                    }
                                    assert forall|i: int, j: int|
                                        0 <= i < ctx_view(context).len() && 0 <= j < ctx_view(
                                            context,
                                        )[i].len() implies #[trigger] ctx_view(context)[i][j]
                                        < bound by {
                                        if i < pre_memo.len() {
                                            assert(ctx_view(context)[i] == pre_memo[i]);
                                        } else {
                                            assert(ctx_view(context)[i] == dv);
                                            assert(dv.contains(dv[j]));
                                            let mm = choose|mm: usize|
                                                #[trigger] set@.contains(mm) && ts.contains(
                                                    (Edge { from: mm, label: lab, to: dv[j] }),
                                                );
                                            let p = choose|p: int|
                                                0 <= p < ts.len() && ts[p] == (Edge {
                                                    from: mm,
                                                    label: lab,
                                                    to: dv[j],
                                                });
                                            assert(ts[p].to < targets_bound(ts));
                                        }
                                    }
                                    assert forall|i: int, j: int|
                                        0 <= i < ctx_view(context).len() && 0 <= j < ctx_view(
                                            context,
                                        ).len() && i != j implies ctx_view(context)[i] != ctx_view(
                                            context,
                                        )[j] by {
                                        if i < pre_memo.len() && j < pre_memo.len() {
                                            assert(ctx_view(context)[i] == pre_memo[i]);
                                            assert(ctx_view(context)[j] == pre_memo[j]);
                                        } else if i < pre_memo.len() {
                                            assert(ctx_view(context)[j] == dv);
                                            assert(!pre_memo.contains(dv));
                                            assert(pre_memo.contains(pre_memo[i]));
                                        } else {
                                            assert(ctx_view(context)[i] == dv);
                                            assert(!pre_memo.contains(dv));
                                            assert(pre_memo.contains(pre_memo[j]));
                                        }
                                    }
                                }
                                lemma_memo_bound(ctx_view(context), bound as nat);
                                assert forall|i: int|
                                    0 <= i < queue@.len() implies ctx_view(context).contains(
                                    #[trigger] queue@[i]@,
                                ) by {
                                    if i < queue@.len() - 1 {
                                        assert(pre_memo.contains(queue@[i]@));
                                        let p = choose|p: int|
                                            0 <= p < pre_memo.len() && pre_memo[p] == queue@[i]@;
                                        assert(ctx_view(context)[p] == queue@[i]@);
                                    } else {
                                        assert(queue@[i]@ == dv);
                                        assert(ctx_view(context)[pre_memo.len() as int] == dv);
                                    }
                                }
                            }
                        },
                        Next::Contains(to) => {
                            transitions.push(DfaEdge { from: from_id, symbol: lab, to });
                            proof {
                                assert(lookup(pre_memo, dv) is Some);
                            }
                        },
                    }
                }
                proof {
                    let remaining = chars@.subrange(ci as int, chars@.len() as int);
                    assert(remaining[0] == chars@[ci as int]);
                    assert(remaining.drop_first() =~= chars@.subrange(
                        ci + 1,
                        chars@.len() as int,
                    ));
                    let spec_dests = dests_fold(ts, set@, lab);
                    assert(spec_dests == dv);
                    let st_now = exec_state(context, queue@, accepts@, transitions@);
                    if dv.len() == 0 {
                        assert(st_now == pre_state);
                        assert(step_chars(ts, set@, from_id as int, remaining, pre_state)
                            == step_chars(ts, set@, from_id as int, remaining.drop_first(), st_now));
                    } else {
                        match lookup(pre_state.memo, spec_dests) {
                            Some(to_spec) => {
                                assert(st_now.memo == pre_state.memo);
                                assert(st_now.queue == pre_state.queue);
                                assert(st_now.accepts == pre_state.accepts);
                                assert(st_now.edges == pre_state.edges.push(
                                    DfaEdge {
                                        from: (from_id as int) as usize,
                                        symbol: lab,
                                        to: (to_spec as int) as usize,
                                    },
                                ));
                            },
                            None => {
                                assert(st_now.memo == pre_state.memo.push(spec_dests));
                                assert(st_now.queue == pre_state.queue.push(spec_dests));
                                assert(st_now.accepts == pre_state.accepts);
                                assert(st_now.edges == pre_state.edges.push(
                                    DfaEdge {
                                        from: (from_id as int) as usize,
                                        symbol: lab,
                                        to: pre_state.memo.len() as usize,
                                    },
                                ));
                            },
                        }
                        assert(step_chars(ts, set@, from_id as int, remaining, pre_state)
                            == step_chars(ts, set@, from_id as int, remaining.drop_first(), st_now));
                    }
                }
                ci = ci + 1;
            }
            proof {
                assert(chars@.subrange(ci as int, chars@.len() as int) =~= Seq::<usize>::empty());
                let st_end = exec_state(context, queue@, accepts@, transitions@);
                assert(step_chars(
                    ts,
                    set@,
                    from_id as int,
                    chars@.subrange(ci as int, chars@.len() as int),
                    st_end,
                ) == st_end);
                assert(st_end == target);
                assert(chars@ == chars_fold(ts, set@));
                assert(build_step(ts, accs, st0) == st_end);
                assert(iterate(ts, accs, init_state(nfa), steps + 1) == st_end) by {
                    lemma_iterate_add(ts, accs, init_state(nfa), steps, 1);
                    assert(iterate(ts, accs, build_step(ts, accs, st0), 0) == build_step(
                        ts,
                        accs,
                        st0,
                    ));
                    assert(iterate(ts, accs, st0, 1) == build_step(ts, accs, st0));
                }
                steps = steps + 1;
                // one set left the queue; every queued set was freshly numbered
                assert(2 * (pow2(bound as nat) - ctx_view(context).len()) + queue@.len() < 2 * (
                pow2(bound as nat) - memo_len0) + queue_len0);
            }
        }
        proof {
            let st = iterate(ts, accs, init_state(nfa), steps);
            assert(st.queue.len() == 0) by {
                assert(vecs_view(queue@).len() == 0);
            }
            assert(start == 0);
            assert(st.accepts == accepts@);
            assert(st.edges == transitions@);
        }
        let r = Automaton { start, accepts, transitions };
        proof {
            let st = iterate(ts, accs, init_state(nfa), steps);
            assert(iterate(ts, accs, init_state(nfa), steps).queue.len() == 0 && r.start == 0
                && r.accepts@ == st.accepts && r.transitions@ == st.edges);
        }
        r
    }
}

} // verus!
