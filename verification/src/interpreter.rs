//! Bytecode compiler and execution engine: flattens the tree into a linear
//! instruction array with precomputed symmetric jump offsets, and runs it
//! against a fixed-size byte tape.
//!
//! The engine is a deterministic state machine: `step` gives the meaning of
//! one instruction, and `run` executes up to a caller-chosen number of steps
//! (the language admits programs that never halt, so a single call cannot
//! promise completion; the caller keeps calling until `run` reports done).

use vstd::prelude::*;
use vstd::pervasive::VecAdditionalExecFns;

use crate::parser::{view_node, view_nodes, ASTNode, Node};

verus! {

#[derive(Debug, PartialEq, Eq, Structural, Clone, Copy)]
pub enum Instruction {
    Incr(u8),
    Decr(u8),
    Next(usize),
    Prev(usize),
    Input,
    Output,
    BeginLoop(usize),
    EndLoop(usize),
    ScanRight,
    ScanLeft,
    SetCell(u8),
}

/// The instructions one tree node flattens to. Comment and no-op nodes
/// produce nothing; a loop wraps its compiled body in a begin/end pair
/// whose shared offset is the body length plus one.
pub open spec fn compile_node(n: Node) -> Seq<Instruction>
    decreases n,
{
    match n {
        Node::Incr(c) => seq![Instruction::Incr(c)],
        Node::Decr(c) => seq![Instruction::Decr(c)],
        Node::Next(c) => seq![Instruction::Next(c)],
        Node::Prev(c) => seq![Instruction::Prev(c)],
        Node::Input => seq![Instruction::Input],
        Node::Output => seq![Instruction::Output],
        Node::SetCell(c) => seq![Instruction::SetCell(c)],
        Node::ScanLeft => seq![Instruction::ScanLeft],
        Node::ScanRight => seq![Instruction::ScanRight],
        Node::Comment(_) => Seq::<Instruction>::empty(),
        Node::NoOp => Seq::<Instruction>::empty(),
        Node::Loop(body) => {
            let b = compile_nodes(body);
            seq![Instruction::BeginLoop((b.len() + 1) as usize)] + b + seq![
                Instruction::EndLoop((b.len() + 1) as usize),
            ]
        },
    }
}

pub open spec fn compile_nodes(s: Seq<Node>) -> Seq<Instruction>
    decreases s,
{
    if s.len() == 0 {
        Seq::<Instruction>::empty()
    } else {
        compile_nodes(s.drop_last()) + compile_node(s.last())
    }
}

/// Wrap-around increment of a tape cell, modulo 256.
pub open spec fn add_wrap(a: u8, b: u8) -> u8 {
    if a + b > 255 {
        (a + b - 256) as u8
    } else {
        (a + b) as u8
    }
}

/// Wrap-around decrement of a tape cell, modulo 256.
pub open spec fn sub_wrap(a: u8, b: u8) -> u8 {
    if a - b < 0 {
        (a - b + 256) as u8
    } else {
        (a - b) as u8
    }
}

/// The index of the first zero cell at or to the right of `p`, if the scan
/// stays on the tape.
pub open spec fn scan_right_from(mem: Seq<u8>, p: nat) -> Option<nat>
    decreases mem.len() - p,
{
    if p >= mem.len() {
        None
    } else if mem[p as int] == 0 {
        Some(p)
    } else {
        scan_right_from(mem, p + 1)
    }
}

/// The index of the first zero cell at or to the left of `p`, if the scan
/// stays on the tape.
pub open spec fn scan_left_from(mem: Seq<u8>, p: nat) -> Option<nat>
    decreases p,
{
    if p >= mem.len() {
        None
    } else if mem[p as int] == 0 {
        Some(p)
    } else if p == 0 {
        None
    } else {
        scan_left_from(mem, (p - 1) as nat)
    }
}

/// The whole execution state: instruction array, program counter, tape,
/// cursor, the bytes the input collaborator will deliver (with how many
/// were already read), the bytes written so far, and whether a checked
/// bound was violated.
pub struct MachineState {
    pub program: Seq<Instruction>,
    pub pc: nat,
    pub mem: Seq<u8>,
    pub ptr: nat,
    pub input: Seq<u8>,
    pub inpos: nat,
    pub output: Seq<u8>,
    pub failed: bool,
}

/// A machine neither halted (program counter past the end) nor failed.
pub open spec fn running(m: MachineState) -> bool {
    !m.failed && m.pc < m.program.len()
}

pub open spec fn wf(m: MachineState) -> bool {
    &&& m.ptr < m.mem.len()
    &&& m.inpos <= m.input.len()
    &&& m.pc <= m.program.len()
}

/// The meaning of one instruction. The program counter is advanced before
/// the instruction acts, so loop offsets are relative to the advanced
/// counter. Cursor motion and jumps are bounds-checked: a violation sets
/// the failure flag instead of leaving the tape or the program.
pub open spec fn step(m: MachineState) -> MachineState {
    if !running(m) {
        m
    } else {
        let instr = m.program[m.pc as int];
        let m1 = MachineState { pc: m.pc + 1, ..m };
        match instr {
            Instruction::Incr(d) => MachineState {
                mem: m1.mem.update(m1.ptr as int, add_wrap(m1.mem[m1.ptr as int], d)),
                ..m1
            },
            Instruction::Decr(d) => MachineState {
                mem: m1.mem.update(m1.ptr as int, sub_wrap(m1.mem[m1.ptr as int], d)),
                ..m1
            },
            Instruction::Next(d) => if m1.ptr + d < m1.mem.len() {
                MachineState { ptr: (m1.ptr + d) as nat, ..m1 }
            } else {
                MachineState { failed: true, ..m1 }
            },
            Instruction::Prev(d) => if d <= m1.ptr {
                MachineState { ptr: (m1.ptr - d) as nat, ..m1 }
            } else {
                MachineState { failed: true, ..m1 }
            },
            Instruction::Input => if m1.inpos < m1.input.len() {
                MachineState {
                    mem: m1.mem.update(m1.ptr as int, m1.input[m1.inpos as int]),
                    inpos: m1.inpos + 1,
                    ..m1
                }
            } else {
                m1
            },
            Instruction::Output => MachineState {
                output: m1.output.push(m1.mem[m1.ptr as int]),
                ..m1
            },
            Instruction::BeginLoop(off) => if m1.mem[m1.ptr as int] == 0 {
                if m1.pc + off <= m1.program.len() {
                    MachineState { pc: (m1.pc + off) as nat, ..m1 }
                } else {
                    MachineState { failed: true, ..m1 }
                }
            } else {
                m1
            },
            Instruction::EndLoop(off) => if m1.mem[m1.ptr as int] != 0 {
                if off <= m1.pc {
                    MachineState { pc: (m1.pc - off) as nat, ..m1 }
                } else {
                    MachineState { failed: true, ..m1 }
                }
            } else {
                m1
            },
            Instruction::ScanRight => match scan_right_from(m1.mem, m1.ptr) {
                Some(q) => MachineState { ptr: q, ..m1 },
                None => MachineState { failed: true, ..m1 },
            },
            Instruction::ScanLeft => match scan_left_from(m1.mem, m1.ptr) {
                Some(q) => MachineState { ptr: q, ..m1 },
                None => MachineState { failed: true, ..m1 },
            },
            Instruction::SetCell(d) => MachineState {
                mem: m1.mem.update(m1.ptr as int, d),
                ..m1
            },
        }
    }
}

/// `n` steps of the machine. A halted or failed machine no longer moves.
pub open spec fn steps(m: MachineState, n: nat) -> MachineState
    decreases n,
{
    if n == 0 {
        m
    } else {
        step(steps(m, (n - 1) as nat))
    }
}

pub proof fn lemma_steps_stutter(m: MachineState, n: nat)
    requires
        !running(m),
    ensures
        steps(m, n) == m,
    decreases n,
{
    if n > 0 {
        lemma_steps_stutter(m, (n - 1) as nat);
    }
}

pub proof fn lemma_steps_add(m: MachineState, a: nat, b: nat)
    ensures
        steps(m, a + b) == steps(steps(m, a), b),
    decreases b,
{
    if b > 0 {
        lemma_steps_add(m, a, (b - 1) as nat);
        assert(a + b - 1 == a + (b - 1) as nat);
    }
}

pub struct Interpreter {
    pub program: Vec<Instruction>,
    pub program_counter: usize,
    pub memory: Vec<u8>,
    pub memory_pointer: usize,
    pub input: Vec<u8>,
    pub input_pointer: usize,
    pub output: Vec<u8>,
    pub failed: bool,
}

impl View for Interpreter {
    type V = MachineState;

    open spec fn view(&self) -> MachineState {
        MachineState {
            program: self.program@,
            pc: self.program_counter as nat,
            mem: self.memory@,
            ptr: self.memory_pointer as nat,
            input: self.input@,
            inpos: self.input_pointer as nat,
            output: self.output@,
            failed: self.failed,
        }
    }
}

fn compile_into(nodes: &Vec<ASTNode>, out: &mut Vec<Instruction>)
    ensures
        final(out)@ == old(out)@ + compile_nodes(view_nodes(nodes@)),
    decreases nodes@,
{
    let ghost vs = view_nodes(nodes@);
    let ghost base = out@;
    let mut idx: usize = 0;
    proof {
        assert(vs.take(0) =~= Seq::<Node>::empty());
        assert(out@ =~= base + compile_nodes(vs.take(0)));
    }
    while idx < nodes.len()
        invariant
            idx <= nodes@.len(),
            vs == view_nodes(nodes@),
            base == old(out)@,
            out@ == base + compile_nodes(vs.take(idx as int)),
        decreases nodes@.len() - idx,
    {
        let ghost pre = out@;
        proof {
            assert(vs[idx as int] == view_node(nodes@[idx as int]));
        }
        match &nodes[idx] {
            ASTNode::Incr(c) => {
                out.push(Instruction::Incr(*c));
                proof {
                    assert(out@ =~= pre + compile_node(vs[idx as int]));
                }
            },
            ASTNode::Decr(c) => {
                out.push(Instruction::Decr(*c));
                proof {
                    assert(out@ =~= pre + compile_node(vs[idx as int]));
                }
            },
            ASTNode::Next(c) => {
                out.push(Instruction::Next(*c));
                proof {
                    assert(out@ =~= pre + compile_node(vs[idx as int]));
                }
            },
            ASTNode::Prev(c) => {
                out.push(Instruction::Prev(*c));
                proof {
                    assert(out@ =~= pre + compile_node(vs[idx as int]));
                }
            },
            ASTNode::Input => {
                out.push(Instruction::Input);
                proof {
                    assert(out@ =~= pre + compile_node(vs[idx as int]));
                }
            },
            ASTNode::Output => {
                out.push(Instruction::Output);
                proof {
                    assert(out@ =~= pre + compile_node(vs[idx as int]));
                }
            },
            ASTNode::SetCell(c) => {
                out.push(Instruction::SetCell(*c));
                proof {
                    assert(out@ =~= pre + compile_node(vs[idx as int]));
                }
            },
            ASTNode::ScanLeft => {
                out.push(Instruction::ScanLeft);
                proof {
                    assert(out@ =~= pre + compile_node(vs[idx as int]));
                }
            },
            ASTNode::ScanRight => {
                out.push(Instruction::ScanRight);
                proof {
                    assert(out@ =~= pre + compile_node(vs[idx as int]));
                }
            },
            ASTNode::Comment(_) => {
                proof {
                    assert(out@ =~= pre + compile_node(vs[idx as int]));
                }
            },
            ASTNode::NoOp => {
                proof {
                    assert(out@ =~= pre + compile_node(vs[idx as int]));
                }
            },
            ASTNode::Loop(body) => {
                proof {
                    assert(decreases_to!(nodes@ => nodes@[idx as int]));
                    assert(decreases_to!(nodes@[idx as int] => body));
                    assert(decreases_to!(body => body@));
                    assert(vs[idx as int] == Node::Loop(view_nodes(body@)));
                }
                out.push(Instruction::BeginLoop(0));
                let begin = out.len() - 1;
                compile_into(body, out);
                let end_pos = out.len();
                let offset = end_pos - begin;
                out.push(Instruction::EndLoop(offset));
                out.set(begin, Instruction::BeginLoop(offset));
                proof {
                    let b = compile_nodes(view_nodes(body@));
                    assert(offset == b.len() + 1);
                    assert(out@ =~= pre + compile_node(vs[idx as int]));
                }
            },
        }
        idx = idx + 1;
        proof {
            assert(vs.take(idx as int).drop_last() =~= vs.take(idx as int - 1));
            assert(vs.take(idx as int).last() == vs[idx as int - 1]);
            assert(out@ =~= base + compile_nodes(vs.take(idx as int)));
        }
    }
    proof {
        assert(vs.take(idx as int) =~= vs);
    }
}

/// Runs the cursor right to the first zero cell, or reports that it would
/// leave the tape.
fn scan_right_exec(mem: &Vec<u8>, start: usize) -> (r: Option<usize>)
    requires
        start < mem@.len(),
    ensures
        match r {
            Some(q) => scan_right_from(mem@, start as nat) == Some(q as nat) && q < mem@.len(),
            None => scan_right_from(mem@, start as nat) is None,
        },
{
    let mut p = start;
    while mem[p] != 0
        invariant
            p < mem@.len(),
            scan_right_from(mem@, start as nat) == scan_right_from(mem@, p as nat),
        decreases mem@.len() - p,
    {
        if p >= mem.len() - 1 {
            proof {
                assert(scan_right_from(mem@, (p + 1) as nat) is None);
                assert(scan_right_from(mem@, p as nat) is None);
            }
            return None;
        }
        p = p + 1;
    }
    Some(p)
}

/// Runs the cursor left to the first zero cell, or reports that it would
/// leave the tape.
fn scan_left_exec(mem: &Vec<u8>, start: usize) -> (r: Option<usize>)
    requires
        start < mem@.len(),
    ensures
        match r {
            Some(q) => scan_left_from(mem@, start as nat) == Some(q as nat) && q < mem@.len(),
            None => scan_left_from(mem@, start as nat) is None,
        },
{
    let mut p = start;
    while mem[p] != 0
        invariant
            p < mem@.len(),
            scan_left_from(mem@, start as nat) == scan_left_from(mem@, p as nat),
        decreases p,
    {
        if p == 0 {
            proof {
                assert(scan_left_from(mem@, p as nat) is None);
            }
            return None;
        }
        p = p - 1;
    }
    Some(p)
}

pub const TAPE_LEN: usize = 30000;

impl Interpreter {
    /// A fresh machine over the compiled form of `data`: zero-filled tape,
    /// cursor and program counter at zero, no input bytes yet.
    pub fn new(data: Vec<ASTNode>) -> (r: Interpreter)
        ensures
            r@.program == compile_nodes(view_nodes(data@)),
            r@.pc == 0,
            r@.mem.len() == TAPE_LEN,
            forall|i: int| 0 <= i < r@.mem.len() ==> r@.mem[i] == 0,
            r@.ptr == 0,
            r@.input == Seq::<u8>::empty(),
            r@.inpos == 0,
            r@.output == Seq::<u8>::empty(),
            !r@.failed,
            wf(r@),
    {
        Interpreter {
            memory: zero_tape(),
            memory_pointer: 0,
            program: Self::compile(data),
            program_counter: 0,
            input: Vec::new(),
            input_pointer: 0,
            output: Vec::new(),
            failed: false,
        }
    }

    /// A fresh machine over an instruction array given directly.
    pub fn new_with_instructions(program: Vec<Instruction>) -> (r: Interpreter)
        ensures
            r@.program == program@,
            r@.pc == 0,
            r@.mem.len() == TAPE_LEN,
            forall|i: int| 0 <= i < r@.mem.len() ==> r@.mem[i] == 0,
            r@.ptr == 0,
            r@.input == Seq::<u8>::empty(),
            r@.inpos == 0,
            r@.output == Seq::<u8>::empty(),
            !r@.failed,
            wf(r@),
    {
        Interpreter {
            memory: zero_tape(),
            memory_pointer: 0,
            program,
            program_counter: 0,
            input: Vec::new(),
            input_pointer: 0,
            output: Vec::new(),
            failed: false,
        }
    }

    /// Structural flattening of a tree into the linear instruction array.
    pub fn compile(ast: Vec<ASTNode>) -> (r: Vec<Instruction>)
        ensures
            r@ == compile_nodes(view_nodes(ast@)),
    {
        let mut out: Vec<Instruction> = Vec::new();
        compile_into(&ast, &mut out);
        proof {
            assert(out@ =~= compile_nodes(view_nodes(ast@)));
        }
        out
    }

    /// Executes up to `fuel` machine steps; the result says whether the
    /// machine is done (halted or failed) rather than out of fuel.
    pub fn run(&mut self, fuel: u64) -> (done: bool)
        requires
            wf(old(self)@),
        ensures
            final(self)@ == steps(old(self)@, fuel as nat),
            wf(final(self)@),
            done == !running(final(self)@),
    {
        let mut used: u64 = 0;
        while used < fuel && self.program_counter < self.program.len() && !self.failed
            invariant
                used <= fuel,
                self@ == steps(old(self)@, used as nat),
                wf(self@),
            decreases fuel - used,
        {
            let ghost pre = self@;
            let instr = self.program[self.program_counter];
            self.program_counter = self.program_counter + 1;
            match instr {
                Instruction::Incr(d) => {
                    let p = self.memory_pointer;
                    let v = self.memory[p];
                    self.memory.set(p, v.wrapping_add(d));
                },
                Instruction::Decr(d) => {
                    let p = self.memory_pointer;
                    let v = self.memory[p];
                    self.memory.set(p, v.wrapping_sub(d));
                },
                Instruction::Next(d) => {
                    if d < self.memory.len() - self.memory_pointer {
                        self.memory_pointer = self.memory_pointer + d;
                    } else {
                        self.failed = true;
                    }
                },
                Instruction::Prev(d) => {
                    if d <= self.memory_pointer {
                        self.memory_pointer = self.memory_pointer - d;
                    } else {
                        self.failed = true;
                    }
                },
                Instruction::Input => {
                    if self.input_pointer < self.input.len() {
                        let b = self.input[self.input_pointer];
                        self.memory.set(self.memory_pointer, b);
                        self.input_pointer = self.input_pointer + 1;
                    }
                },
                Instruction::Output => {
                    let v = self.memory[self.memory_pointer];
                    self.output.push(v);
                },
                Instruction::BeginLoop(off) => {
                    if self.memory[self.memory_pointer] == 0 {
                        if off <= self.program.len() - self.program_counter {
                            self.program_counter = self.program_counter + off;
                        } else {
                            self.failed = true;
                        }
                    }
                },
                Instruction::EndLoop(off) => {
                    if self.memory[self.memory_pointer] != 0 {
                        if off <= self.program_counter {
                            self.program_counter = self.program_counter - off;
                        } else {
                            self.failed = true;
                        }
                    }
                },
                Instruction::ScanRight => {
                    match scan_right_exec(&self.memory, self.memory_pointer) {
                        Some(q) => {
                            self.memory_pointer = q;
                        },
                        None => {
                            self.failed = true;
                        },
                    }
                },
                Instruction::ScanLeft => {
                    match scan_left_exec(&self.memory, self.memory_pointer) {
                        Some(q) => {
                            self.memory_pointer = q;
                        },
                        None => {
                            self.failed = true;
                        },
                    }
                },
                Instruction::SetCell(d) => {
                    self.memory.set(self.memory_pointer, d);
                },
            }
            used = used + 1;
            proof {
                assert(self@ == step(pre));
            }
        }
        proof {
            if used < fuel {
                lemma_steps_stutter(self@, (fuel - used) as nat);
                lemma_steps_add(old(self)@, used as nat, (fuel - used) as nat);
            }
        }
        self.failed || self.program_counter >= self.program.len()
    }
}

/// The zero-filled tape of the fixed capacity.
fn zero_tape() -> (r: Vec<u8>)
    ensures
        r@.len() == TAPE_LEN,
        forall|i: int| 0 <= i < r@.len() ==> r@[i] == 0,
{
    let mut memory: Vec<u8> = Vec::new();
    while memory.len() < TAPE_LEN
        invariant
            memory@.len() <= TAPE_LEN,
            forall|i: int| 0 <= i < memory@.len() ==> memory@[i] == 0,
        decreases TAPE_LEN - memory.len(),
    {
        memory.push(0);
    }
    memory
}

} // verus!
