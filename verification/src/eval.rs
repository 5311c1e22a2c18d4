//! The meaning of a syntax tree, directly: a fuel-bounded big-step
//! evaluator over the tape. Each loop pass consumes one unit of fuel, so
//! the evaluator is total; a run that needs more fuel than given comes
//! back as `Short`, never as a wrong answer. This is the yardstick the
//! optimization passes are measured against.

use vstd::prelude::*;

use crate::interpreter::{add_wrap, scan_left_from, scan_right_from, sub_wrap};
use crate::parser::Node;

verus! {

/// What a program acts on: the tape and cursor, the bytes the input
/// collaborator will deliver (and how many were taken), and the bytes
/// written so far.
pub struct TapeState {
    pub mem: Seq<u8>,
    pub ptr: nat,
    pub input: Seq<u8>,
    pub inpos: nat,
    pub output: Seq<u8>,
}

pub enum Outcome {
    /// The program ran to completion in the given fuel.
    Done(TapeState),
    /// Cursor motion or a scan left the tape.
    Fault,
    /// The fuel ran out before the program completed.
    Short,
}

/// One node's effect on the tape, with `fuel` bounding how many times
/// loops may cycle. Every cell access and every cursor move is
/// bounds-checked: a violation is a fault, so a completed run touched
/// only the tape.
pub open spec fn eval_node(n: Node, st: TapeState, fuel: nat) -> Outcome
    decreases fuel, n,
{
    if st.ptr >= st.mem.len() {
        Outcome::Fault
    } else {
        match n {
            Node::Incr(c) => Outcome::Done(TapeState {
                mem: st.mem.update(st.ptr as int, add_wrap(st.mem[st.ptr as int], c)),
                ..st
            }),
            Node::Decr(c) => Outcome::Done(TapeState {
                mem: st.mem.update(st.ptr as int, sub_wrap(st.mem[st.ptr as int], c)),
                ..st
            }),
            Node::Next(c) => if st.ptr + c < st.mem.len() {
                Outcome::Done(TapeState { ptr: (st.ptr + c) as nat, ..st })
            } else {
                Outcome::Fault
            },
            Node::Prev(c) => if c <= st.ptr {
                Outcome::Done(TapeState { ptr: (st.ptr - c) as nat, ..st })
            } else {
                Outcome::Fault
            },
            Node::Input => if st.inpos < st.input.len() {
                Outcome::Done(TapeState {
                    mem: st.mem.update(st.ptr as int, st.input[st.inpos as int]),
                    inpos: st.inpos + 1,
                    ..st
                })
            } else {
                Outcome::Done(st)
            },
            Node::Output => Outcome::Done(TapeState {
                output: st.output.push(st.mem[st.ptr as int]),
                ..st
            }),
            Node::SetCell(c) => Outcome::Done(TapeState {
                mem: st.mem.update(st.ptr as int, c),
                ..st
            }),
            Node::ScanRight => match scan_right_from(st.mem, st.ptr) {
                Some(q) => Outcome::Done(TapeState { ptr: q, ..st }),
                None => Outcome::Fault,
            },
            Node::ScanLeft => match scan_left_from(st.mem, st.ptr) {
                Some(q) => Outcome::Done(TapeState { ptr: q, ..st }),
                None => Outcome::Fault,
            },
            Node::Comment(_) => Outcome::Done(st),
            Node::NoOp => Outcome::Done(st),
            Node::Loop(body) => if st.mem[st.ptr as int] == 0 {
                Outcome::Done(st)
            } else {
                match eval_nodes(body, st, fuel) {
                    Outcome::Done(st2) => if fuel == 0 {
                        Outcome::Short
                    } else {
                        eval_node(n, st2, (fuel - 1) as nat)
                    },
                    o => o,
                }
            },
        }
    }
}

/// A sequence of nodes, run left to right.
pub open spec fn eval_nodes(s: Seq<Node>, st: TapeState, fuel: nat) -> Outcome
    decreases fuel, s,
{
    if s.len() == 0 {
        Outcome::Done(st)
    } else {
        match eval_node(s[0], st, fuel) {
            Outcome::Done(st1) => eval_nodes(s.skip(1), st1, fuel),
            o => o,
        }
    }
}

} // verus!
