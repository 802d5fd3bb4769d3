//! The automaton-backed [`Regex`]: parse, Thompson-construct, eliminate
//! epsilon transitions, subset-construct, then match by a linear scan.
//!
//! [`Regex::new`] pins its result down completely: the syntax tree is
//! [`spec_parse`] of the pattern, the intermediate automata are the unique
//! ones the construction predicates describe, and the final automaton is
//! the unique one the subset construction converges to
//! ([`lemma_regex_built_unique`]): compiling one pattern twice yields
//! identical automata.

use crate::deterministic_finite_automaton::{
    from_converges, lemma_from_converges_unique, Automaton as Dfa, DfaEdge,
};
use crate::nondeterministic_finite_automaton::{
    alloc_count, expand_has, in_eclosure, lemma_alloc_count_bound,
    lemma_elimination_preserves_language, lemma_sorted_strict_edges_unique, model_accepts,
    model_edge, model_start, nfa_accepts, spec_label_of, Automaton as Nfa, Context, Edge, EPSILON,
};
use crate::parser::{chars_of, lemma_parse_size, node_count, parse, spec_parse, Node, SyntaxError, MAX_PATTERN_LENGTH};
use crate::sets::lemma_sorted_strict_unique;
use vstd::prelude::*;

verus! {

/// The destination of the first recorded transition out of `from` under
/// `sym`, if any.
pub open spec fn dfa_lookup(edges: Seq<DfaEdge>, from: usize, sym: usize) -> Option<usize>
    decreases edges.len(),
{
    if edges.len() == 0 {
        None
    } else if edges[0].from == from && edges[0].symbol == sym {
        Some(edges[0].to)
    } else {
        dfa_lookup(edges.drop_first(), from, sym)
    }
}

/// The state after consuming `s` from position `i` onward, starting at
/// `cur`; `None` when some step has no transition.
pub open spec fn dfa_run(edges: Seq<DfaEdge>, cur: usize, s: Seq<char>, i: int) -> Option<usize>
    decreases s.len() - i,
{
    if i < 0 || i >= s.len() {
        Some(cur)
    } else {
        match dfa_lookup(edges, cur, spec_label_of(s[i])) {
            Some(next) => dfa_run(edges, next, s, i + 1),
            None => None,
        }
    }
}

/// Whole-string acceptance: run from the start over all of `s` and end in
/// an accepting state; an undefined transition rejects.
pub open spec fn dfa_accepts(d: Dfa, s: Seq<char>) -> bool {
    match dfa_run(d.transitions@, d.start, s, 0) {
        Some(q) => d.accepts@.contains(q),
        None => false,
    }
}

impl Dfa {
    /// The destination under code point `c`, scanning the recorded
    /// transitions in order.
    pub fn transition(&self, from: usize, c: char) -> (r: Option<usize>)
        ensures
            r == dfa_lookup(self.transitions@, from, spec_label_of(c)),
    {
        let sym = crate::nondeterministic_finite_automaton::label_of(c);
        let ghost edges = self.transitions@;
        proof {
            assert(edges.subrange(0, edges.len() as int) =~= edges);
        }
        let mut i: usize = 0;
        while i < self.transitions.len()
            invariant
                i <= edges.len(),
                edges == self.transitions@,
                sym == spec_label_of(c),
                dfa_lookup(edges, from, sym) == dfa_lookup(
                    edges.subrange(i as int, edges.len() as int),
                    from,
                    sym,
                ),
            decreases edges.len() - i,
        {
            let e = self.transitions[i];
            proof {
                let tail = edges.subrange(i as int, edges.len() as int);
                assert(tail[0] == e);
                assert(tail.drop_first() =~= edges.subrange(i + 1, edges.len() as int));
            }
            if e.from == from && e.symbol == sym {
                proof {
                    let tail = edges.subrange(i as int, edges.len() as int);
                    assert(dfa_lookup(tail, from, sym) == Some(e.to));
                }
                return Some(e.to);
            }
            i = i + 1;
        }
        proof {
            let tail = edges.subrange(i as int, edges.len() as int);
            assert(tail.len() == 0);
            assert(dfa_lookup(tail, from, sym) is None);
        }
        None
    }
}

/// `a` is the Thompson automaton of `node`, numbered from zero.
pub open spec fn assembled(node: Node, a: Nfa) -> bool {
    &&& a.wf()
    &&& a.start == model_start(node, 0)
    &&& forall|q: usize| a.accepts@.contains(q) <==> model_accepts(node, 0, q as int)
    &&& forall|e: Edge|
        a.transitions@.contains(e) <==> model_edge(node, 0, e.from as int, e.label as int, e.to as int)
}

/// `b` is `a` with its epsilon transitions removed, as epsilon elimination
/// describes.
pub open spec fn eliminated(a: Nfa, b: Nfa) -> bool {
    &&& b.wf()
    &&& b.start == a.start
    &&& forall|q: usize|
        b.accepts@.contains(q) <==> a.accepts@.contains(q) || (q == a.start && exists|p: usize|
            in_eclosure(a.transitions@, a.start, p) && a.accepts@.contains(p))
    &&& forall|e: Edge|
        b.transitions@.contains(e) <==> e.label != EPSILON && expand_has(
            a.transitions@,
            e.from,
            e.label,
            e.to,
        )
}

/// The canonical representation makes each stage a function: two automata
/// assembled from one tree coincide, view for view.
pub proof fn lemma_assembled_unique(node: Node, a1: Nfa, a2: Nfa)
    requires
        assembled(node, a1),
        assembled(node, a2),
    ensures
        a1.start == a2.start,
        a1.accepts@ == a2.accepts@,
        a1.transitions@ == a2.transitions@,
{
    assert forall|q: usize| a1.accepts@.contains(q) <==> a2.accepts@.contains(q) by {
        assert(a1.accepts@.contains(q) <==> model_accepts(node, 0, q as int));
        assert(a2.accepts@.contains(q) <==> model_accepts(node, 0, q as int));
    }
    assert forall|e: Edge| a1.transitions@.contains(e) <==> a2.transitions@.contains(e) by {
        assert(a1.transitions@.contains(e) <==> model_edge(
            node,
            0,
            e.from as int,
            e.label as int,
            e.to as int,
        ));
        assert(a2.transitions@.contains(e) <==> model_edge(
            node,
            0,
            e.from as int,
            e.label as int,
            e.to as int,
        ));
    }
    lemma_sorted_strict_unique(a1.accepts@, a2.accepts@);
    lemma_sorted_strict_edges_unique(a1.transitions@, a2.transitions@);
}

/// Epsilon elimination of one automaton has one result, view for view.
pub proof fn lemma_eliminated_unique(a: Nfa, b1: Nfa, b2: Nfa)
    requires
        eliminated(a, b1),
        eliminated(a, b2),
    ensures
        b1.start == b2.start,
        b1.accepts@ == b2.accepts@,
        b1.transitions@ == b2.transitions@,
{
    assert forall|q: usize| b1.accepts@.contains(q) <==> b2.accepts@.contains(q) by {
        assert(b1.accepts@.contains(q) <==> a.accepts@.contains(q) || (q == a.start && exists|
            p: usize,
        | in_eclosure(a.transitions@, a.start, p) && a.accepts@.contains(p)));
        assert(b2.accepts@.contains(q) <==> a.accepts@.contains(q) || (q == a.start && exists|
            p: usize,
        | in_eclosure(a.transitions@, a.start, p) && a.accepts@.contains(p)));
    }
    assert forall|e: Edge| b1.transitions@.contains(e) <==> b2.transitions@.contains(e) by {
        assert(b1.transitions@.contains(e) <==> e.label != EPSILON && expand_has(
            a.transitions@,
            e.from,
            e.label,
            e.to,
        ));
        assert(b2.transitions@.contains(e) <==> e.label != EPSILON && expand_has(
            a.transitions@,
            e.from,
            e.label,
            e.to,
        ));
    }
    lemma_sorted_strict_unique(b1.accepts@, b2.accepts@);
    lemma_sorted_strict_edges_unique(b1.transitions@, b2.transitions@);
}

/// Epsilon elimination preserves the language: the epsilon-free rewrite of
/// an automaton accepts exactly the words the automaton accepted.
pub proof fn lemma_eliminated_preserves_language(a: Nfa, b: Nfa, s: Seq<char>)
    requires
        eliminated(a, b),
    ensures
        nfa_accepts(b, s) == nfa_accepts(a, s),
{
    lemma_elimination_preserves_language(a, b, s);
}

/// A regular expression compiled into a deterministic finite automaton.
#[derive(Debug, Clone, PartialEq)]
pub struct Regex {
    pub automaton: Dfa,
}

/// The whole pipeline: the pattern parses to a tree whose Thompson
/// automaton, once epsilon-free, subset-constructs to the regex's
/// automaton.
pub open spec fn regex_built(pattern: Seq<char>, r: Regex) -> bool {
    exists|node: Node, a: Nfa, b: Nfa|
        spec_parse(pattern) == Some(node) && #[trigger] assembled(node, a) && #[trigger] eliminated(
            a,
            b,
        ) && from_converges(b, r.automaton)
}

/// Compiled artifacts are a pure function of the pattern: two automata
/// built from one pattern are identical in start state, accepting set and
/// transition table.
pub proof fn lemma_regex_built_unique(pattern: Seq<char>, r1: Regex, r2: Regex)
    requires
        regex_built(pattern, r1),
        regex_built(pattern, r2),
    ensures
        r1.automaton.start == r2.automaton.start,
        r1.automaton.accepts@ == r2.automaton.accepts@,
        r1.automaton.transitions@ == r2.automaton.transitions@,
{
    let (node1, a1, b1) = choose|node: Node, a: Nfa, b: Nfa|
        spec_parse(pattern) == Some(node) && #[trigger] assembled(node, a) && #[trigger] eliminated(
            a,
            b,
        ) && from_converges(b, r1.automaton);
    let (node2, a2, b2) = choose|node: Node, a: Nfa, b: Nfa|
        spec_parse(pattern) == Some(node) && #[trigger] assembled(node, a) && #[trigger] eliminated(
            a,
            b,
        ) && from_converges(b, r2.automaton);
    assert(node1 == node2);
    lemma_assembled_unique(node1, a1, a2);
    assert(eliminated(a1, b2)) by {
        assert(a1.start == a2.start && a1.accepts@ == a2.accepts@ && a1.transitions@
            == a2.transitions@);
    }
    lemma_eliminated_unique(a1, b1, b2);
    assert(from_converges(b1, r2.automaton)) by {
        assert(b1.start == b2.start && b1.accepts@ == b2.accepts@ && b1.transitions@
            == b2.transitions@);
        let k = choose|k: nat|
            {
                let st = crate::deterministic_finite_automaton::iterate(
                    b2.transitions@,
                    b2.accepts@,
                    crate::deterministic_finite_automaton::init_state(b2),
                    k,
                );
                #[trigger] crate::deterministic_finite_automaton::iterate(
                    b2.transitions@,
                    b2.accepts@,
                    crate::deterministic_finite_automaton::init_state(b2),
                    k,
                ).queue.len() == 0 && r2.automaton.start == 0 && r2.automaton.accepts@ == st.accepts
                    && r2.automaton.transitions@ == st.edges
            };
        assert(crate::deterministic_finite_automaton::init_state(b1)
            == crate::deterministic_finite_automaton::init_state(b2));
    }
    lemma_from_converges_unique(b1, r1.automaton, r2.automaton);
}

impl Regex {
    /// Compile a pattern through the automaton pipeline; fails exactly when
    /// the grammar rejects the pattern.
    pub fn new(pattern: &str) -> (r: Result<Self, SyntaxError>)
        requires
            pattern@.len() <= MAX_PATTERN_LENGTH,
        ensures
            match r {
                Ok(regex) => spec_parse(pattern@) is Some && regex_built(pattern@, regex),
                Err(_) => spec_parse(pattern@) is None,
            },
    {
        let node = match parse(pattern) {
            Ok(node) => node,
            Err(e) => {
                return Err(e);
            },
        };
        proof {
            lemma_parse_size(pattern@);
            assert(node_count(node) <= 3 * pattern@.len() + 1);
            lemma_alloc_count_bound(node);
        }
        let mut context = Context::new();
        let ghost parsed = node;
        let nfa_raw = node.assemble(&mut context);
        let ghost a = nfa_raw;
        let mut nfa = nfa_raw;
        nfa.remove_epsilon_transitions();
        proof {
            assert(assembled(parsed, a));
            assert(eliminated(a, nfa));
        }
        let ghost b = nfa;
        let dfa = Dfa::from(nfa);
        let regex = Self { automaton: dfa };
        proof {
            assert(spec_parse(pattern@) == Some(parsed) && assembled(parsed, a) && eliminated(
                a,
                b,
            ) && from_converges(b, regex.automaton));
        }
        Ok(regex)
    }

    /// Full-string match: follow one transition per code point; a missing
    /// transition rejects at once, and the input matches exactly when the
    /// final state is accepting.
    pub fn matches(&self, text: &str) -> (r: bool)
        ensures
            r == dfa_accepts(self.automaton, text@),
    {
        let chars = chars_of(text);
        let ghost s = text@;
        let mut current = self.automaton.start;
        let mut i: usize = 0;
        while i < chars.len()
            invariant
                i <= s.len(),
                chars@ == s,
                s == text@,
                dfa_run(self.automaton.transitions@, self.automaton.start, s, 0) == dfa_run(
                    self.automaton.transitions@,
                    current,
                    s,
                    i as int,
                ),
            decreases s.len() - i,
        {
            let ghost before = current;
            match self.automaton.transition(current, chars[i]) {
                Some(destination) => {
                    proof {
                        assert(dfa_run(self.automaton.transitions@, before, s, i as int)
                            == dfa_run(self.automaton.transitions@, destination, s, i + 1));
                    }
                    current = destination;
                },
                None => {
                    proof {
                        assert(dfa_run(self.automaton.transitions@, before, s, i as int)
                            is None);
                    }
                    return false;
                },
            }
            i = i + 1;
        }
        proof {
            assert(dfa_run(self.automaton.transitions@, current, s, i as int) == Some(current));
        }
        crate::sets::contains_state(&self.automaton.accepts, current)
    }
}

} // verus!
