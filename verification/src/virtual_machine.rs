//! Backtracking virtual machine, and the bytecode-backed [`Regex`].
//!
//! The machine keeps an explicit stack of threads, each an input offset and
//! a program counter, and always works on the topmost one; `S` pushes the
//! lower-priority branch underneath, so the left alternative and "keep
//! repeating" are explored first. The machine's meaning is the step
//! function [`vm_step`]: [`VirtualMachine::run`] returns the result the
//! iterated step function reaches ([`vm_outcome`]), which is unique
//! ([`lemma_vm_outcome_unique`]).
//!
//! A thread standing at an offset and a program counter where an earlier
//! thread already died is dropped: re-exploring it would retrace exactly
//! the failed search, so dropping it changes neither the answer nor the
//! reported offset, while bounding the machine's work.

use crate::compiler::{wf_program, Instruction};
use crate::parser::{chars_of, node_count, spec_parse, SyntaxError, MAX_PATTERN_LENGTH};
use crate::sets::lemma_distinct_bounded_len;
use vstd::prelude::*;

verus! {

/// One backtracking branch: how much input it has consumed and where in
/// the program it stands.
#[derive(Debug, Clone, Copy, PartialEq, Eq, Structural)]
pub struct Thread {
    pub sp: usize,
    pub pc: usize,
}

/// The machine: still running with a thread stack and the threads already
/// abandoned, or finished with a result.
pub enum VmState {
    Run(Seq<Thread>, Seq<Thread>),
    Done(Option<usize>),
}

/// One step of the machine, on the topmost thread.
pub open spec fn vm_step(instrs: Seq<Instruction>, chars: Seq<char>, st: VmState) -> VmState {
    match st {
        VmState::Done(r) => VmState::Done(r),
        VmState::Run(threads, visited) => {
            if threads.len() == 0 {
                VmState::Done(None)
            } else {
                let t = threads.last();
                if visited.contains(t) {
                    VmState::Run(threads.drop_last(), visited)
                } else if t.pc >= instrs.len() {
                    VmState::Done(None)
                } else {
                    let v2 = visited.push(t);
                    match instrs[t.pc as int] {
                        Instruction::C(c) => {
                            if t.sp < chars.len() && chars[t.sp as int] == c {
                                VmState::Run(
                                    threads.drop_last().push(
                                        (Thread { sp: (t.sp + 1) as usize, pc: (t.pc + 1) as usize }),
                                    ),
                                    v2,
                                )
                            } else {
                                VmState::Run(threads.drop_last(), v2)
                            }
                        },
                        Instruction::J(a) => VmState::Run(
                            threads.drop_last().push((Thread { sp: t.sp, pc: a })),
                            v2,
                        ),
                        Instruction::S(a, b) => VmState::Run(
                            threads.drop_last().push((Thread { sp: t.sp, pc: b })).push(
                                (Thread { sp: t.sp, pc: a }),
                            ),
                            v2,
                        ),
                        Instruction::M => VmState::Done(Some(t.sp)),
                    }
                }
            }
        },
    }
}

/// `k` steps of the machine.
pub open spec fn vm_iterate(instrs: Seq<Instruction>, chars: Seq<char>, st: VmState, k: nat) -> VmState
    decreases k,
{
    if k == 0 {
        st
    } else {
        vm_iterate(instrs, chars, vm_step(instrs, chars, st), (k - 1) as nat)
    }
}

/// The machine's starting state: one thread at the start of the input and
/// of the program.
pub open spec fn vm_init() -> VmState {
    VmState::Run(seq![(Thread { sp: 0, pc: 0 })], Seq::empty())
}

/// The machine on `instrs` and `chars` reaches the result `r`: the offset
/// of the first thread, in priority order, to hit `M`, or `None` when every
/// thread dies.
pub open spec fn vm_outcome(instrs: Seq<Instruction>, chars: Seq<char>, r: Option<usize>) -> bool {
    exists|k: nat| vm_iterate(instrs, chars, vm_init(), k) == VmState::Done(r)
}

pub proof fn lemma_vm_iterate_stable(
    instrs: Seq<Instruction>,
    chars: Seq<char>,
    r: Option<usize>,
    k: nat,
)
    ensures
        vm_iterate(instrs, chars, VmState::Done(r), k) == VmState::Done(r),
    decreases k,
{
    if k > 0 {
        lemma_vm_iterate_stable(instrs, chars, r, (k - 1) as nat);
    }
}

pub proof fn lemma_vm_iterate_add(
    instrs: Seq<Instruction>,
    chars: Seq<char>,
    st: VmState,
    k1: nat,
    k2: nat,
)
    ensures
        vm_iterate(instrs, chars, vm_iterate(instrs, chars, st, k1), k2) == vm_iterate(
            instrs,
            chars,
            st,
            k1 + k2,
        ),
    decreases k1,
{
    if k1 > 0 {
        lemma_vm_iterate_add(instrs, chars, vm_step(instrs, chars, st), (k1 - 1) as nat, k2);
    }
}

/// The machine reaches one result only.
pub proof fn lemma_vm_outcome_unique(
    instrs: Seq<Instruction>,
    chars: Seq<char>,
    r1: Option<usize>,
    r2: Option<usize>,
)
    requires
        vm_outcome(instrs, chars, r1),
        vm_outcome(instrs, chars, r2),
    ensures
        r1 == r2,
{
    let k1 = choose|k: nat| vm_iterate(instrs, chars, vm_init(), k) == VmState::Done(r1);
    let k2 = choose|k: nat| vm_iterate(instrs, chars, vm_init(), k) == VmState::Done(r2);
    lemma_vm_iterate_add(instrs, chars, vm_init(), k1, k2);
    lemma_vm_iterate_add(instrs, chars, vm_init(), k2, k1);
    lemma_vm_iterate_stable(instrs, chars, r1, k2);
    lemma_vm_iterate_stable(instrs, chars, r2, k1);
    assert(k1 + k2 == k2 + k1);
}

/// Fork priority: stepping a running machine whose topmost thread stands,
/// unexplored, at `S(a, b)` leaves the `a` branch on top of the stack, so
/// the machine explores `a` — the left alternative, or "repeat the star
/// body once more" — before `b`.
pub proof fn lemma_split_priority(
    instrs: Seq<Instruction>,
    chars: Seq<char>,
    threads: Seq<Thread>,
    visited: Seq<Thread>,
    a: usize,
    b: usize,
)
    requires
        threads.len() > 0,
        !visited.contains(threads.last()),
        threads.last().pc < instrs.len(),
        instrs[threads.last().pc as int] == Instruction::S(a, b),
    ensures
        ({
            let t = threads.last();
            vm_step(instrs, chars, VmState::Run(threads, visited)) == VmState::Run(
                threads.drop_last().push((Thread { sp: t.sp, pc: b })).push(
                    (Thread { sp: t.sp, pc: a }),
                ),
                visited.push(t),
            )
        }),
{
}

/// The result that makes a full match: the machine reported consuming the
/// whole input.
pub open spec fn vm_accepts(instrs: Seq<Instruction>, s: Seq<char>, b: bool) -> bool {
    exists|res: Option<usize>|
        vm_outcome(instrs, s, res) && b == match res {
            Some(sp) => sp == s.len(),
            None => false,
        }
}

/// Whatever the machine reports, `vm_accepts` fixes the boolean.
pub proof fn lemma_vm_accepts_unique(instrs: Seq<Instruction>, s: Seq<char>, b1: bool, b2: bool)
    requires
        vm_accepts(instrs, s, b1),
        vm_accepts(instrs, s, b2),
    ensures
        b1 == b2,
{
    let res1 = choose|res: Option<usize>|
        vm_outcome(instrs, s, res) && b1 == match res {
            Some(sp) => sp == s.len(),
            None => false,
        };
    let res2 = choose|res: Option<usize>|
        vm_outcome(instrs, s, res) && b2 == match res {
            Some(sp) => sp == s.len(),
            None => false,
        };
    lemma_vm_outcome_unique(instrs, s, res1, res2);
}

/// Full-string anchoring: a machine that hits `M` short of the end of the
/// input has not matched the string; only a reported offset equal to the whole
/// length is a match.
pub proof fn lemma_full_string_anchoring(instrs: Seq<Instruction>, s: Seq<char>, sp: usize)
    requires
        vm_outcome(instrs, s, Some(sp)),
        sp < s.len(),
    ensures
        vm_accepts(instrs, s, false),
        !vm_accepts(instrs, s, true),
{
    assert(vm_accepts(instrs, s, false)) by {
        let res = Some(sp);
        assert(vm_outcome(instrs, s, res) && false == match res {
            Some(sp2) => sp2 == s.len(),
            None => false,
        });
    }
    if vm_accepts(instrs, s, true) {
        lemma_vm_accepts_unique(instrs, s, true, false);
    }
}

/// Whether the vector holds the thread.
fn contains_thread(v: &Vec<Thread>, t: Thread) -> (r: bool)
    ensures
        r == v@.contains(t),
{
    let mut i: usize = 0;
    while i < v.len()
        invariant
            i <= v@.len(),
            forall|k: int| 0 <= k < i ==> v@[k] != t,
        decreases v@.len() - i,
    {
        if v[i] == t {
            assert(v@[i as int] == t);
            return true;
        }
        i = i + 1;
    }
    false
}

/// Distinct threads within the program and input bounds number at most
/// `instrs * (chars + 1)`.
proof fn lemma_visited_bound(v: Seq<Thread>, ilen: int, clen: int)
    requires
        v.no_duplicates(),
        forall|i: int| 0 <= i < v.len() ==> #[trigger] v[i].pc < ilen && v[i].sp <= clen,
        ilen >= 0,
        clen >= 0,
    ensures
        v.len() <= ilen * (clen + 1),
{
    let w = Seq::new(v.len(), |i: int| v[i].pc * (clen + 1) + v[i].sp);
    assert forall|i: int| 0 <= i < w.len() implies 0 <= #[trigger] w[i] < ilen * (clen + 1) by {
        assert(v[i].pc * (clen + 1) + v[i].sp < ilen * (clen + 1)) by (nonlinear_arith)
            requires
                0 <= v[i].pc < ilen,
                0 <= v[i].sp <= clen,
        ;
        assert(v[i].pc * (clen + 1) + v[i].sp >= 0) by (nonlinear_arith)
            requires
                0 <= v[i].pc,
                0 <= v[i].sp,
                clen >= 0,
        ;
    }
    assert(w.no_duplicates()) by {
        assert forall|i: int, j: int|
            0 <= i < w.len() && 0 <= j < w.len() && i != j implies w[i] != w[j] by {
            if w[i] == w[j] {
                assert(v[i].pc == v[j].pc && v[i].sp == v[j].sp) by (nonlinear_arith)
                    requires
                        v[i].pc * (clen + 1) + v[i].sp == v[j].pc * (clen + 1) + v[j].sp,
                        0 <= v[i].sp <= clen,
                        0 <= v[j].sp <= clen,
                        0 <= v[i].pc,
                        0 <= v[j].pc,
                ;
                assert(v[i] == v[j]);
            }
        }
    }
    assert(ilen * (clen + 1) >= 0) by (nonlinear_arith)
        requires
            ilen >= 0,
            clen >= 0,
    ;
    lemma_distinct_bounded_len(w, 0, ilen * (clen + 1));
}

/// The backtracking machine.
#[derive(Debug, Clone, PartialEq)]
pub struct VirtualMachine {
    pub instructions: Vec<Instruction>,
    pub threads: Vec<Thread>,
}

impl VirtualMachine {
    /// A machine ready to run: one thread at the start.
    pub fn new(instructions: Vec<Instruction>) -> (r: Self)
        ensures
            r.instructions@ == instructions@,
            r.threads@ == seq![(Thread { sp: 0, pc: 0 })],
    {
        let mut threads: Vec<Thread> = Vec::new();
        threads.push(Thread { sp: 0, pc: 0 });
        proof {
            assert(threads@ =~= seq![(Thread { sp: 0, pc: 0 })]);
        }
        Self { instructions, threads }
    }

    /// Run the machine: the offset of the first thread, in priority order,
    /// to hit `M`, or `None` when every thread dies first.
    #[verifier::loop_isolation(false)]
    pub fn run(&mut self, chars: Vec<char>) -> (r: Option<usize>)
        requires
            wf_program(old(self).instructions@),
            old(self).threads@ == seq![(Thread { sp: 0, pc: 0 })],
        ensures
            vm_outcome(old(self).instructions@, chars@, r),
    {
        let ghost instrs = self.instructions@;
        let ghost cs = chars@;
        let ghost ilen = instrs.len() as int;
        let ghost clen = cs.len() as int;
        let program_length = self.instructions.len();
        proof {
            assert(program_length == ilen);
        }
        let mut visited: Vec<Thread> = Vec::new();
        let ghost mut steps: nat = 0;
        proof {
            assert(vm_iterate(instrs, cs, vm_init(), 0) == vm_init());
            assert(visited@ =~= Seq::<Thread>::empty());
        }
        loop
            invariant
                self.instructions@ == instrs,
                vm_iterate(instrs, cs, vm_init(), steps) == VmState::Run(
                    self.threads@,
                    visited@,
                ),
                forall|i: int|
                    0 <= i < self.threads@.len() ==> #[trigger] self.threads@[i].pc < ilen
                        && self.threads@[i].sp <= clen,
                forall|i: int|
                    0 <= i < visited@.len() ==> #[trigger] visited@[i].pc < ilen
                        && visited@[i].sp <= clen,
                visited@.no_duplicates(),
                visited@.len() <= ilen * (clen + 1),
            decreases 2 * (ilen * (clen + 1) - visited@.len()) + self.threads@.len(),
        {
            if self.threads.len() == 0 {
                proof {
                    assert(vm_step(instrs, cs, VmState::Run(self.threads@, visited@))
                        == VmState::Done(None::<usize>));
                    lemma_vm_iterate_add(instrs, cs, vm_init(), steps, 1);
                    assert(vm_iterate(instrs, cs, VmState::Done(None::<usize>), 0)
                        == VmState::Done(None::<usize>));
                    assert(vm_iterate(instrs, cs, vm_init(), steps + 1) == VmState::Done(
                        None::<usize>,
                    ));
                }
                return None;
            }
            let t = self.threads[self.threads.len() - 1];
            proof {
                assert(t == self.threads@.last());
                assert(self.threads@[self.threads@.len() - 1].pc < ilen);
                assert(self.threads@[self.threads@.len() - 1].sp <= clen);
                assert(t.pc < ilen && t.sp <= clen);
            }
            let ghost threads0 = self.threads@;
            let ghost visited0 = visited@;
            if contains_thread(&visited, t) {
                let _ = self.threads.pop();
                proof {
                    assert(self.threads@ == threads0.drop_last());
                    assert(vm_step(instrs, cs, VmState::Run(threads0, visited0)) == VmState::Run(
                        self.threads@,
                        visited@,
                    ));
                    lemma_vm_iterate_add(instrs, cs, vm_init(), steps, 1);
                    steps = steps + 1;
                }
            } else {
                visited.push(t);
                proof {
                    assert(visited@ == visited0.push(t));
                    assert(visited@.no_duplicates()) by {
                        assert forall|a: int, b: int|
                            0 <= a < b < visited@.len() implies visited@[a] != visited@[b] by {
                            if b == visited@.len() - 1 {
                                assert(visited@[b] == t);
                                assert(visited0[a] == visited@[a]);
                                assert(visited0.contains(visited0[a]));
                            } else {
                                assert(visited0[a] == visited@[a]);
                                assert(visited0[b] == visited@[b]);
                            }
                        }
                    }
                    lemma_visited_bound(visited@, ilen, clen);
                }
                let instruction = self.instructions[t.pc];
                match instruction {
                    Instruction::C(c) => {
                        if t.sp < chars.len() && c == chars[t.sp] {
                            proof {
                                // the program ends in `M`, so `C` is never last
                                assert(instrs.last() == Instruction::M);
                                assert(t.pc != ilen - 1);
                            }
                            let _ = self.threads.pop();
                            self.threads.push(Thread { sp: t.sp + 1, pc: t.pc + 1 });
                            proof {
                                assert(self.threads@ == threads0.drop_last().push(
                                    (Thread { sp: (t.sp + 1) as usize, pc: (t.pc + 1) as usize }),
                                ));
                            }
                        } else {
                            let _ = self.threads.pop();
                            proof {
                                assert(self.threads@ == threads0.drop_last());
                            }
                        }
                    },
                    Instruction::J(a) => {
                        let _ = self.threads.pop();
                        self.threads.push(Thread { sp: t.sp, pc: a });
                        proof {
                            assert(self.threads@ == threads0.drop_last().push(
                                (Thread { sp: t.sp, pc: a }),
                            ));
                        }
                    },
                    Instruction::S(a, b) => {
                        let _ = self.threads.pop();
                        self.threads.push(Thread { sp: t.sp, pc: b });
                        self.threads.push(Thread { sp: t.sp, pc: a });
                        proof {
                            assert(self.threads@ == threads0.drop_last().push(
                                (Thread { sp: t.sp, pc: b }),
                            ).push((Thread { sp: t.sp, pc: a })));
                        }
                    },
                    Instruction::M => {
                        proof {
                            assert(vm_step(instrs, cs, VmState::Run(threads0, visited0))
                                == VmState::Done(Some(t.sp)));
                            lemma_vm_iterate_add(instrs, cs, vm_init(), steps, 1);
                            assert(vm_iterate(instrs, cs, VmState::Done(Some(t.sp)), 0)
                                == VmState::Done(Some(t.sp)));
                            assert(vm_iterate(instrs, cs, vm_init(), steps + 1) == VmState::Done(
                                Some(t.sp),
                            ));
                        }
                        return Some(t.sp);
                    },
                }
                proof {
                    assert(vm_step(instrs, cs, VmState::Run(threads0, visited0)) == VmState::Run(
                        self.threads@,
                        visited@,
                    ));
                    lemma_vm_iterate_add(instrs, cs, vm_init(), steps, 1);
                    steps = steps + 1;
                }
            }
        }
    }
}

/// An element-for-element copy of a program.
fn copy_instructions(v: &Vec<Instruction>) -> (r: Vec<Instruction>)
    ensures
        r@ == v@,
{
    let mut r: Vec<Instruction> = Vec::new();
    let mut i: usize = 0;
    while i < v.len()
        invariant
            i <= v@.len(),
            r@ == v@.subrange(0, i as int),
        decreases v@.len() - i,
    {
        r.push(v[i]);
        proof {
            assert(r@ =~= v@.subrange(0, i + 1));
        }
        i = i + 1;
    }
    proof {
        assert(r@ =~= v@);
    }
    r
}

/// A pattern compiled to bytecode for the backtracking machine.
#[derive(Debug, Clone, PartialEq)]
pub struct Regex {
    pub instructions: Vec<Instruction>,
}

impl Regex {
    /// Compile a pattern; fails exactly when the grammar rejects it.
    pub fn new(pattern: &str) -> (r: Result<Self, SyntaxError>)
        requires
            pattern@.len() <= MAX_PATTERN_LENGTH,
        ensures
            match r {
                Ok(regex) => spec_parse(pattern@) is Some && regex.instructions@ == spec_compile_of(
                    pattern@,
                ) && wf_program(regex.instructions@),
                Err(_) => spec_parse(pattern@) is None,
            },
    {
        let node = match crate::parser::parse(pattern) {
            Ok(node) => node,
            Err(e) => {
                return Err(e);
            },
        };
        proof {
            crate::parser::lemma_parse_size(pattern@);
            assert(node_count(node) <= 3 * pattern@.len() + 1);
        }
        let instructions = node.compile();
        Ok(Self { instructions })
    }

    /// Whether the whole of `text` matches: the machine must report the
    /// full input length; a shorter reported offset or thread exhaustion is
    /// a non-match.
    pub fn matches(&self, text: &str) -> (r: bool)
        requires
            wf_program(self.instructions@),
        ensures
            vm_accepts(self.instructions@, text@, r),
    {
        let chars = chars_of(text);
        let n = chars.len();
        let mut virtual_machine = VirtualMachine::new(copy_instructions(&self.instructions));
        let outcome = virtual_machine.run(chars);
        let r = match outcome {
            Some(sp) => sp == n,
            None => false,
        };
        proof {
            assert(vm_outcome(self.instructions@, text@, outcome) && r == match outcome {
                Some(sp) => sp == text@.len(),
                None => false,
            });
        }
        r
    }
}

/// The program a pattern compiles to, as a function of the pattern alone;
/// compiling the same pattern twice yields identical bytecode.
pub open spec fn spec_compile_of(pattern: Seq<char>) -> Seq<Instruction> {
    crate::compiler::spec_compile(spec_parse(pattern).unwrap())
}

/// Compiled artifacts are a pure function of the pattern: two successful
/// compilations of one pattern hold identical instruction sequences.
pub proof fn lemma_compile_idempotent(pattern: Seq<char>, r1: Regex, r2: Regex)
    requires
        r1.instructions@ == spec_compile_of(pattern),
        r2.instructions@ == spec_compile_of(pattern),
    ensures
        r1.instructions@ == r2.instructions@,
{
}

} // verus!
