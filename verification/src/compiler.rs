//! Bytecode compiler: a direct translation of the syntax tree into a flat
//! instruction list, mirroring the Thompson construction but targeting a
//! linear program instead of a graph.
//!
//! The translation is a pure function of the tree; [`spec_compile`] states
//! it in full, and [`Node::compile`] returns exactly that sequence.

use crate::parser::{node_count, Node};
use vstd::prelude::*;

verus! {

/// One bytecode instruction.
///
/// `C(c)` consumes one code point equal to `c` or fails the thread; `J(a)`
/// jumps to address `a`; `S(a, b)` forks, trying `a` before `b`; `M`
/// accepts, reporting the current input offset.
#[derive(Debug, Clone, Copy, PartialEq, Eq, Structural)]
pub enum Instruction {
    C(char),
    J(usize),
    S(usize, usize),
    M,
}

/// The instructions for `n` when emitted starting at address `pc`, and the
/// address after them.
pub open spec fn compile_rec(n: Node, pc: int) -> (Seq<Instruction>, int)
    decreases n,
{
    match n {
        Node::Empty => (Seq::empty(), pc),
        Node::Char(c) => (seq![Instruction::C(c)], pc + 1),
        Node::Concat(l, r) => {
            let (first, n1) = compile_rec(*l, pc);
            let (second, n2) = compile_rec(*r, n1);
            (first + second, n2)
        },
        Node::Union(l, r) => {
            let (first, n1) = compile_rec(*l, pc + 1);
            let (second, n2) = compile_rec(*r, n1 + 1);
            (
                seq![Instruction::S((pc + 1) as usize, (n1 + 1) as usize)] + first + seq![
                    Instruction::J(n2 as usize),
                ] + second,
                n2,
            )
        },
        Node::Star(i) => {
            if *i is Star {
                compile_rec(*i, pc)
            } else {
                let (body, n1) = compile_rec(*i, pc + 1);
                (
                    seq![Instruction::S((pc + 1) as usize, (n1 + 1) as usize)] + body + seq![
                        Instruction::J(pc as usize),
                    ],
                    n1 + 1,
                )
            }
        },
    }
}

/// The whole program of a pattern: its instructions followed by one `M`.
pub open spec fn spec_compile(n: Node) -> Seq<Instruction> {
    compile_rec(n, 0).0.push(Instruction::M)
}

/// Addresses advance by at most two per node, the emitted block has exactly
/// the advanced length, and every jump or fork target lies in `[pc, end]`.
pub proof fn lemma_compile_rec_bounds(n: Node, pc: int)
    requires
        pc >= 0,
        pc + 2 * node_count(n) <= usize::MAX,
    ensures
        ({
            let (body, end) = compile_rec(n, pc);
            &&& pc <= end <= pc + 2 * node_count(n)
            &&& body.len() == end - pc
            &&& forall|k: int|
                0 <= k < body.len() ==> match #[trigger] body[k] {
                    Instruction::C(_) => true,
                    Instruction::J(a) => pc <= a <= end,
                    Instruction::S(a, b) => pc <= a <= end && pc <= b <= end,
                    Instruction::M => false,
                }
        }),
    decreases n,
{
    match n {
        Node::Empty => {},
        Node::Char(_) => {},
        Node::Concat(l, r) => {
            let (first, n1) = compile_rec(*l, pc);
            lemma_compile_rec_bounds(*l, pc);
            let (second, n2) = compile_rec(*r, n1);
            lemma_compile_rec_bounds(*r, n1);
            let (body, end) = compile_rec(n, pc);
            assert(body == first + second);
            assert forall|k: int|
                0 <= k < body.len() implies match #[trigger] body[k] {
                    Instruction::C(_) => true,
                    Instruction::J(a) => pc <= a <= end,
                    Instruction::S(a, b) => pc <= a <= end && pc <= b <= end,
                    Instruction::M => false,
                } by {
                if k < first.len() {
                    assert(body[k] == first[k]);
                } else {
                    assert(body[k] == second[k - first.len()]);
                }
            }
        },
        Node::Union(l, r) => {
            let (first, n1) = compile_rec(*l, pc + 1);
            lemma_compile_rec_bounds(*l, pc + 1);
            let (second, n2) = compile_rec(*r, n1 + 1);
            lemma_compile_rec_bounds(*r, n1 + 1);
            let (body, end) = compile_rec(n, pc);
            let head = seq![Instruction::S((pc + 1) as usize, (n1 + 1) as usize)];
            let mid = seq![Instruction::J(n2 as usize)];
            assert(body == head + first + mid + second);
            assert forall|k: int|
                0 <= k < body.len() implies match #[trigger] body[k] {
                    Instruction::C(_) => true,
                    Instruction::J(a) => pc <= a <= end,
                    Instruction::S(a, b) => pc <= a <= end && pc <= b <= end,
                    Instruction::M => false,
                } by {
                if k == 0 {
                    assert(body[k] == Instruction::S((pc + 1) as usize, (n1 + 1) as usize));
                } else if k < 1 + first.len() {
                    assert(body[k] == first[k - 1]);
                } else if k == 1 + first.len() {
                    assert(body[k] == Instruction::J(n2 as usize));
                } else {
                    assert(body[k] == second[k - (2 + first.len())]);
                }
            }
        },
        Node::Star(i) => {
            if *i is Star {
                lemma_compile_rec_bounds(*i, pc);
            } else {
                let (inner, n1) = compile_rec(*i, pc + 1);
                lemma_compile_rec_bounds(*i, pc + 1);
                let (body, end) = compile_rec(n, pc);
                let head = seq![Instruction::S((pc + 1) as usize, (n1 + 1) as usize)];
                let tail = seq![Instruction::J(pc as usize)];
                assert(body == head + inner + tail);
                assert forall|k: int|
                    0 <= k < body.len() implies match #[trigger] body[k] {
                        Instruction::C(_) => true,
                        Instruction::J(a) => pc <= a <= end,
                        Instruction::S(a, b) => pc <= a <= end && pc <= b <= end,
                        Instruction::M => false,
                    } by {
                    if k == 0 {
                        assert(body[k] == Instruction::S((pc + 1) as usize, (n1 + 1) as usize));
                    } else if k < 1 + inner.len() {
                        assert(body[k] == inner[k - 1]);
                    } else {
                        assert(body[k] == Instruction::J(pc as usize));
                    }
                }
            }
        },
    }
}

/// A program is well formed when it is nonempty, ends in `M`, and every
/// jump or fork target is an address of the program.
pub open spec fn wf_program(instrs: Seq<Instruction>) -> bool {
    &&& instrs.len() > 0
    &&& instrs.last() == Instruction::M
    &&& forall|k: int|
        0 <= k < instrs.len() ==> match #[trigger] instrs[k] {
            Instruction::C(_) => true,
            Instruction::J(a) => a < instrs.len(),
            Instruction::S(a, b) => a < instrs.len() && b < instrs.len(),
            Instruction::M => true,
        }
}

/// Every compiled program is well formed.
pub proof fn lemma_spec_compile_wf(n: Node)
    requires
        2 * node_count(n) <= usize::MAX,
    ensures
        wf_program(spec_compile(n)),
        spec_compile(n).len() == compile_rec(n, 0).1 + 1,
{
    lemma_compile_rec_bounds(n, 0);
    let (body, end) = compile_rec(n, 0);
    let prog = spec_compile(n);
    assert(prog == body.push(Instruction::M));
    assert(prog.last() == Instruction::M);
    assert forall|k: int|
        0 <= k < prog.len() implies match #[trigger] prog[k] {
            Instruction::C(_) => true,
            Instruction::J(a) => a < prog.len(),
            Instruction::S(a, b) => a < prog.len() && b < prog.len(),
            Instruction::M => true,
        } by {
        if k < body.len() {
            assert(prog[k] == body[k]);
        }
    }
}

impl Node {
    /// Emit this node's instructions starting at address `n`; returns them
    /// with the address that follows them.
    pub fn recur(&self, n: usize) -> (r: (Vec<Instruction>, usize))
        requires
            n + 2 * node_count(*self) <= usize::MAX,
        ensures
            r.0@ == compile_rec(*self, n as int).0,
            r.1 as int == compile_rec(*self, n as int).1,
        decreases *self,
    {
        proof {
            lemma_compile_rec_bounds(*self, n as int);
        }
        let mut instructions: Vec<Instruction> = Vec::new();
        match self {
            Node::Empty => (instructions, n),
            Node::Char(c) => {
                instructions.push(Instruction::C(*c));
                proof {
                    assert(instructions@ =~= compile_rec(*self, n as int).0);
                }
                (instructions, n + 1)
            },
            Node::Concat(left, right) => {
                proof {
                    lemma_compile_rec_bounds(**left, n as int);
                    lemma_compile_rec_bounds(
                        **right,
                        compile_rec(**left, n as int).1,
                    );
                }
                let (mut instructions1, n1) = left.recur(n);
                let (mut instructions2, n2) = right.recur(n1);
                instructions.append(&mut instructions1);
                instructions.append(&mut instructions2);
                proof {
                    assert(instructions@ =~= compile_rec(*self, n as int).0);
                }
                (instructions, n2)
            },
            Node::Union(left, right) => {
                proof {
                    lemma_compile_rec_bounds(**left, n + 1);
                    lemma_compile_rec_bounds(**right, compile_rec(**left, n + 1).1 + 1);
                }
                let (mut instructions1, n1) = left.recur(n + 1);
                let (mut instructions2, n2) = right.recur(n1 + 1);
                instructions.push(Instruction::S(n + 1, n1 + 1));
                instructions.append(&mut instructions1);
                instructions.push(Instruction::J(n2));
                instructions.append(&mut instructions2);
                proof {
                    assert(instructions@ =~= compile_rec(*self, n as int).0);
                }
                (instructions, n2)
            },
            Node::Star(node) => {
                if node.is_star() {
                    return node.recur(n);
                }
                proof {
                    lemma_compile_rec_bounds(**node, n + 1);
                }
                let (mut instructions1, n1) = node.recur(n + 1);
                instructions.push(Instruction::S(n + 1, n1 + 1));
                instructions.append(&mut instructions1);
                instructions.push(Instruction::J(n));
                proof {
                    assert(instructions@ =~= compile_rec(*self, n as int).0);
                }
                (instructions, n1 + 1)
            },
        }
    }

    /// Compile this tree into a complete program: its instructions followed
    /// by one `M`.
    pub fn compile(&self) -> (r: Vec<Instruction>)
        requires
            2 * node_count(*self) <= usize::MAX,
        ensures
            r@ == spec_compile(*self),
            wf_program(r@),
    {
        proof {
            lemma_spec_compile_wf(*self);
        }
        let (mut instructions, _) = self.recur(0);
        instructions.push(Instruction::M);
        instructions
    }
}

} // verus!
