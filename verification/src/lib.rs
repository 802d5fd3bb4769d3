//! A regular-expression matching engine with two independent back ends.
//!
//! A pattern is parsed into a syntax tree ([`parser::Node`]). The tree can be
//! compiled either into a deterministic finite automaton
//! ([`automaton::Regex`], via Thompson construction, epsilon elimination and
//! subset construction) or into a flat bytecode program executed by a
//! backtracking virtual machine ([`virtual_machine::Regex`]). Both back ends
//! answer the same question: does an input string, consumed in its entirety,
//! satisfy the pattern?

pub mod automaton;
pub mod compiler;
pub mod deterministic_finite_automaton;
pub mod nondeterministic_finite_automaton;
pub mod parser;
pub mod sets;
pub mod virtual_machine;
