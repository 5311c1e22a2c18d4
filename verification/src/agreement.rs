//! The bytecode agrees with the tree: running the compiled instruction
//! array on the execution engine's step machine reproduces, step for
//! step-count, exactly what the tree evaluator says — same tape, cursor,
//! input consumption, and output. Together with the pass-preservation
//! proofs this carries semantic preservation all the way to the engine:
//! a source program whose tree run completes is compiled, optimized or
//! not, into bytecode that halts with the identical observable state.

use vstd::prelude::*;

use crate::cli::Cli;
use crate::eval::{eval_node, eval_nodes, Outcome, TapeState};
use crate::interpreter::{
    compile_node, compile_nodes, lemma_steps_add, step, steps, Instruction, MachineState,
};
use crate::optimizer::optimize_spec;
use crate::parser::Node;
use crate::preserve::lemma_optimize_preserves;

verus! {

/// The part of the machine the program observes and changes.
pub open spec fn tape_of(m: MachineState) -> TapeState {
    TapeState { mem: m.mem, ptr: m.ptr, input: m.input, inpos: m.inpos, output: m.output }
}

/// The machine after a block of instructions ran to its end: the counter
/// one past the block, the tape as the block left it.
pub open spec fn after_block(m: MachineState, end: nat, r: TapeState) -> MachineState {
    MachineState {
        program: m.program,
        pc: end,
        mem: r.mem,
        ptr: r.ptr,
        input: r.input,
        inpos: r.inpos,
        output: r.output,
        failed: false,
    }
}

/// Reading one instruction out of a block known to sit at `off`.
proof fn lemma_slice_index(p: Seq<Instruction>, off: int, c: Seq<Instruction>)
    requires
        0 <= off,
        off + c.len() <= p.len(),
        p.subrange(off, off + c.len() as int) == c,
    ensures
        forall|i: int| 0 <= i < c.len() ==> p[off + i] == #[trigger] c[i],
{
    assert forall|i: int| 0 <= i < c.len() implies p[off + i] == #[trigger] c[i] by {
        assert(c[i] == p.subrange(off, off + c.len() as int)[i]);
    }
}

proof fn lemma_compile_head(s: Seq<Node>)
    requires
        s.len() > 0,
    ensures
        compile_nodes(s) == compile_node(s[0]) + compile_nodes(s.skip(1)),
    decreases s.len(),
{
    if s.len() == 1 {
        assert(s.drop_last() =~= Seq::<Node>::empty());
        assert(s.skip(1) =~= Seq::<Node>::empty());
        assert(s.last() == s[0]);
        assert(compile_nodes(s) =~= compile_node(s[0]) + compile_nodes(s.skip(1)));
    } else {
        lemma_compile_head(s.drop_last());
        assert(s.drop_last()[0] == s[0]);
        assert(s.drop_last().skip(1) =~= s.skip(1).drop_last());
        assert(s.skip(1).last() == s.last());
        assert(compile_nodes(s.skip(1)) == compile_nodes(s.skip(1).drop_last()) + compile_node(
            s.last(),
        ));
        assert(compile_nodes(s) =~= compile_node(s[0]) + compile_nodes(s.skip(1)));
    }
}

/// One compiled node runs through the machine exactly as the evaluator
/// says, in `k` machine steps.
pub proof fn lemma_compiled_node_runs(n: Node, m: MachineState, fuel: nat) -> (k: nat)
    requires
        !m.failed,
        eval_node(n, tape_of(m), fuel) is Done,
        compile_node(n).len() <= usize::MAX,
        m.pc + compile_node(n).len() <= m.program.len(),
        m.program.subrange(m.pc as int, m.pc + compile_node(n).len() as int) == compile_node(n),
    ensures
        steps(m, k) == after_block(
            m,
            (m.pc + compile_node(n).len() as int) as nat,
            eval_node(n, tape_of(m), fuel)->0,
        ),
    decreases fuel, n, 0int,
{
    let st = tape_of(m);
    let cn = compile_node(n);
    match n {
        Node::Loop(body) => {
            let cb = compile_nodes(body);
            let d = (cb.len() + 1) as usize;
            assert(cn.len() == cb.len() + 2);
            assert(d == cb.len() + 1);
            lemma_slice_index(m.program, m.pc as int, cn);
            assert(m.program[m.pc as int] == cn[0]);
            assert(cn[0] == Instruction::BeginLoop(d));
            assert(cn[cn.len() - 1] == Instruction::EndLoop(d));
            if st.mem[st.ptr as int] == 0 {
                assert(steps(m, 0) == m);
                assert(steps(m, 1) == step(m));
                assert(step(m) == after_block(m, (m.pc + cn.len()) as nat, st));
                let k: nat = 1;
                k
            } else {
                match eval_nodes(body, st, fuel) {
                    Outcome::Done(st2) => {
                        assert(steps(m, 0) == m);
                        assert(steps(m, 1) == step(m));
                        let m1 = step(m);
                        assert(m1 == (MachineState { pc: m.pc + 1, ..m }));
                        assert(forall|j: int| 0 <= j < cb.len() ==> #[trigger] cb[j] == cn[1 + j]);
                        assert(m1.program.subrange(m1.pc as int, m1.pc + cb.len() as int) =~= cb);
                        assert(m1.program[m1.pc + d - 1] == cn[cn.len() - 1]);
                        let k2 = lemma_compiled_loop_inner(body, d, m1, fuel);
                        lemma_steps_add(m, 1, k2);
                        let k: nat = 1 + k2;
                        k
                    },
                    _ => {
                        let k: nat = 0;
                        k
                    },
                }
            }
        },
        Node::Comment(_) => {
            assert(steps(m, 0) == m);
            assert(after_block(m, (m.pc + 0) as nat, st) == m);
            let k: nat = 0;
            k
        },
        Node::NoOp => {
            assert(steps(m, 0) == m);
            assert(after_block(m, (m.pc + 0) as nat, st) == m);
            let k: nat = 0;
            k
        },
        _ => {
            assert(cn.len() == 1);
            assert(m.program[m.pc as int] == cn[0]);
            assert(steps(m, 0) == m);
            assert(steps(m, 1) == step(m));
            assert(step(m) == after_block(
                m,
                (m.pc + 1) as nat,
                eval_node(n, st, fuel)->0,
            ));
            let k: nat = 1;
            k
        },
    }
}

/// A loop body entered from its first instruction cycles through the
/// machine exactly as the evaluator says, leaving the counter one past
/// the loop-end.
proof fn lemma_compiled_loop_inner(body: Seq<Node>, d: usize, m: MachineState, fuel: nat) -> (k:
    nat)
    requires
        !m.failed,
        d == compile_nodes(body).len() + 1,
        m.pc >= 1,
        m.pc + d <= m.program.len(),
        m.program.subrange(m.pc as int, m.pc + compile_nodes(body).len() as int) == compile_nodes(body),
        m.program[m.pc + d - 1] == Instruction::EndLoop(d),
        tape_of(m).ptr < tape_of(m).mem.len(),
        tape_of(m).mem[tape_of(m).ptr as int] != 0,
        eval_node(Node::Loop(body), tape_of(m), fuel) is Done,
    ensures
        steps(m, k) == after_block(
            m,
            (m.pc + d) as nat,
            eval_node(Node::Loop(body), tape_of(m), fuel)->0,
        ),
    decreases fuel, body, 1int,
{
    let st = tape_of(m);
    let cb = compile_nodes(body);
    lemma_slice_index(m.program, m.pc as int, cb);
    match eval_nodes(body, st, fuel) {
        Outcome::Done(st2) => {
            let k1 = lemma_compiled_nodes_run(body, m, fuel);
            let m1 = after_block(m, (m.pc + cb.len()) as nat, st2);
            assert(steps(m, k1) == m1);
            assert(m1.program[m1.pc as int] == Instruction::EndLoop(d));
            assert(steps(m1, 0) == m1);
            assert(steps(m1, 1) == step(m1));
            if st2.mem[st2.ptr as int] == 0 {
                assert(step(m1) == after_block(m, (m.pc + d) as nat, st2));
                assert(eval_node(Node::Loop(body), st2, (fuel - 1) as nat) == Outcome::Done(st2));
                lemma_steps_add(m, k1, 1);
                let k: nat = k1 + 1;
                k
            } else {
                let m2 = step(m1);
                assert(m2 == (MachineState {
                    program: m.program,
                    pc: m.pc,
                    mem: st2.mem,
                    ptr: st2.ptr,
                    input: st2.input,
                    inpos: st2.inpos,
                    output: st2.output,
                    failed: false,
                }));
                assert(tape_of(m2) == st2);
                lemma_steps_add(m, k1, 1);
                assert(steps(m, k1 + 1) == m2);
                let k3 = lemma_compiled_loop_inner(body, d, m2, (fuel - 1) as nat);
                lemma_steps_add(m, k1 + 1, k3);
                let k: nat = k1 + 1 + k3;
                k
            }
        },
        _ => {
            let k: nat = 0;
            k
        },
    }
}

/// A compiled node sequence runs through the machine exactly as the
/// evaluator says, in `k` machine steps.
pub proof fn lemma_compiled_nodes_run(s: Seq<Node>, m: MachineState, fuel: nat) -> (k: nat)
    requires
        !m.failed,
        eval_nodes(s, tape_of(m), fuel) is Done,
        compile_nodes(s).len() <= usize::MAX,
        m.pc + compile_nodes(s).len() <= m.program.len(),
        m.program.subrange(m.pc as int, m.pc + compile_nodes(s).len() as int) == compile_nodes(s),
    ensures
        steps(m, k) == after_block(
            m,
            (m.pc + compile_nodes(s).len() as int) as nat,
            eval_nodes(s, tape_of(m), fuel)->0,
        ),
    decreases fuel, s, 0int,
{
    let st = tape_of(m);
    if s.len() == 0 {
        assert(steps(m, 0) == m);
        assert(after_block(m, (m.pc + 0) as nat, st) == m);
        let k: nat = 0;
        k
    } else {
        lemma_compile_head(s);
        let c0 = compile_node(s[0]);
        let crest = compile_nodes(s.skip(1));
        assert(compile_nodes(s).len() == c0.len() + crest.len());
        lemma_slice_index(m.program, m.pc as int, compile_nodes(s));
        assert(forall|j: int| 0 <= j < c0.len() ==> #[trigger] c0[j] == compile_nodes(s)[j]);
        assert(forall|j: int|
            0 <= j < crest.len() ==> #[trigger] crest[j] == compile_nodes(s)[c0.len() + j]);
        assert(m.program.subrange(m.pc as int, m.pc + c0.len() as int) =~= c0);
        match eval_node(s[0], st, fuel) {
            Outcome::Done(st1) => {
                let k1 = lemma_compiled_node_runs(s[0], m, fuel);
                let m1 = after_block(m, (m.pc + c0.len() as int) as nat, st1);
                assert(steps(m, k1) == m1);
                assert(tape_of(m1) == st1);
                assert(m1.program.subrange(m1.pc as int, m1.pc + crest.len() as int) =~= crest);
                let k2 = lemma_compiled_nodes_run(s.skip(1), m1, fuel);
                lemma_steps_add(m, k1, k2);
                assert(after_block(m1, (m1.pc + crest.len() as int) as nat, eval_nodes(
                    s.skip(1),
                    st1,
                    fuel,
                )->0) == after_block(m, (m.pc + compile_nodes(s).len() as int) as nat, eval_nodes(
                    s,
                    st,
                    fuel,
                )->0));
                let k: nat = k1 + k2;
                k
            },
            _ => {
                let k: nat = 0;
                k
            },
        }
    }
}

/// The whole pipeline, end to end: if a program's tree runs to completion,
/// then the engine, started on the bytecode compiled from the tree as any
/// configuration of the optimizer rewrote it, halts after some number of
/// steps with the identical tape, cursor, input consumption, and output.
pub proof fn lemma_pipeline_preserves(s: Seq<Node>, cli: Cli, m: MachineState, fuel: nat) -> (k:
    nat)
    requires
        !m.failed,
        m.pc == 0,
        m.program == compile_nodes(optimize_spec(s, cli)),
        m.program.len() <= usize::MAX,
        eval_nodes(s, tape_of(m), fuel) is Done,
    ensures
        steps(m, k) == after_block(m, m.program.len(), eval_nodes(s, tape_of(m), fuel)->0),
        !(steps(m, k).failed),
        steps(m, k).pc == m.program.len(),
    decreases fuel,
{
    lemma_optimize_preserves(s, cli, tape_of(m), fuel);
    let opt = optimize_spec(s, cli);
    assert(m.program.subrange(0, compile_nodes(opt).len() as int) =~= compile_nodes(opt));
    let k = lemma_compiled_nodes_run(opt, m, fuel);
    k
}

} // verus!
