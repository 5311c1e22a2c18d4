//! Statements and proofs of the guarantees that relate the components:
//! what the optimizer leaves behind, and how compiled loop offsets pair up.

use vstd::prelude::*;

use crate::interpreter::{
    compile_node, compile_nodes, lemma_steps_add, running, scan_left_from, scan_right_from, step,
    steps, wf, Instruction, MachineState,
};
use crate::lexer::{tokens_of, Token};
use crate::optimizer::{elim_node, elim_nodes};
use crate::parser::{init_state, parse_fold, parse_spec, Node};

verus! {

/// No no-op marker and no loop with an empty body anywhere in the node.
pub open spec fn trivial_free_node(n: Node) -> bool
    decreases n,
{
    match n {
        Node::Loop(body) => body.len() > 0 && trivial_free(body),
        Node::NoOp => false,
        _ => true,
    }
}

/// No no-op marker and no loop with an empty body anywhere in the sequence.
pub open spec fn trivial_free(s: Seq<Node>) -> bool
    decreases s,
{
    if s.len() == 0 {
        true
    } else {
        trivial_free(s.drop_last()) && trivial_free_node(s.last())
    }
}

pub proof fn lemma_trivial_free_index(s: Seq<Node>, i: int)
    requires
        trivial_free(s),
        0 <= i < s.len(),
    ensures
        trivial_free_node(s[i]),
    decreases s.len(),
{
    if i < s.len() - 1 {
        lemma_trivial_free_index(s.drop_last(), i);
        assert(s.drop_last()[i] == s[i]);
    }
}

pub proof fn lemma_trivial_free_push(s: Seq<Node>, x: Node)
    requires
        trivial_free(s),
        trivial_free_node(x),
    ensures
        trivial_free(s.push(x)),
{
    assert(s.push(x).drop_last() =~= s);
    assert(s.push(x).last() == x);
}

/// Empty-loop elimination: a loop whose body recursively reduces to empty
/// is absent from the rewritten node entirely — not present as a no-op
/// either — and the same holds inside every surviving loop.
pub proof fn lemma_elim_node_trivial_free(n: Node)
    ensures
        trivial_free_node(elim_node(n)) || elim_node(n) is NoOp,
    decreases n,
{
    match n {
        Node::Loop(body) => {
            lemma_elim_nodes_trivial_free(body);
            let b = elim_nodes(body);
            if b.len() == 0 {
            } else if b.len() == 1 && b[0] is Loop {
                lemma_trivial_free_index(b, 0);
            }
        },
        _ => {},
    }
}

/// Empty-loop elimination over a sequence: the result holds no no-op
/// marker and no loop whose body is empty, at any depth.
pub proof fn lemma_elim_nodes_trivial_free(s: Seq<Node>)
    ensures
        trivial_free(elim_nodes(s)),
    decreases s,
{
    if s.len() > 0 {
        lemma_elim_nodes_trivial_free(s.drop_last());
        lemma_elim_node_trivial_free(s.last());
        let done = elim_nodes(s.drop_last());
        let e = elim_node(s.last());
        if !(e is NoOp) {
            lemma_trivial_free_push(done, e);
        }
    }
}

/// Loop offsets pair up symmetrically: a loop-begin at index `i` carrying
/// offset `d` has its matching loop-end at index `i + d` with the same
/// offset, and vice versa.
pub open spec fn offsets_symmetric(prog: Seq<Instruction>) -> bool {
    forall|i: int|
        0 <= i < prog.len() ==> match #[trigger] prog[i] {
            Instruction::BeginLoop(d) => i + d < prog.len() && prog[i + d]
                == Instruction::EndLoop(d),
            Instruction::EndLoop(d) => 0 <= i - d && prog[i - d] == Instruction::BeginLoop(d),
            _ => true,
        }
}

/// Concatenating two blocks with symmetric offsets keeps them symmetric:
/// every begin/end pair is internal to its block.
pub proof fn lemma_offsets_symmetric_add(a: Seq<Instruction>, b: Seq<Instruction>)
    requires
        offsets_symmetric(a),
        offsets_symmetric(b),
    ensures
        offsets_symmetric(a + b),
{
    let c = a + b;
    assert forall|i: int| 0 <= i < c.len() implies match #[trigger] c[i] {
        Instruction::BeginLoop(d) => i + d < c.len() && c[i + d] == Instruction::EndLoop(d),
        Instruction::EndLoop(d) => 0 <= i - d && c[i - d] == Instruction::BeginLoop(d),
        _ => true,
    } by {
        if i < a.len() {
            assert(c[i] == a[i]);
        } else {
            assert(c[i] == b[i - a.len()]);
        }
    }
}

/// The balance invariant: compiling any single well-formed tree node
/// yields symmetric loop-begin/loop-end offset pairs.
pub proof fn lemma_compile_node_balanced(n: Node)
    requires
        compile_node(n).len() <= usize::MAX,
    ensures
        offsets_symmetric(compile_node(n)),
    decreases n,
{
    match n {
        Node::Loop(body) => {
            lemma_compile_nodes_balanced(body);
            let b = compile_nodes(body);
            let d = (b.len() + 1) as usize;
            let p = compile_node(n);
            assert(p.len() == b.len() + 2);
            assert(d == b.len() + 1);
            assert forall|i: int| 0 <= i < p.len() implies match #[trigger] p[i] {
                Instruction::BeginLoop(e) => i + e < p.len() && p[i + e] == Instruction::EndLoop(
                    e,
                ),
                Instruction::EndLoop(e) => 0 <= i - e && p[i - e] == Instruction::BeginLoop(e),
                _ => true,
            } by {
                if i == 0 {
                    assert(p[0] == Instruction::BeginLoop(d));
                    assert(p[d as int] == Instruction::EndLoop(d));
                } else if i == p.len() - 1 {
                    assert(p[i] == Instruction::EndLoop(d));
                    assert(p[i - d] == Instruction::BeginLoop(d));
                } else {
                    assert(p[i] == b[i - 1]);
                    match b[i - 1] {
                        Instruction::BeginLoop(e) => {
                            assert(i - 1 + e < b.len() && b[i - 1 + e] == Instruction::EndLoop(e));
                            assert(p[i + e] == b[i - 1 + e]);
                        },
                        Instruction::EndLoop(e) => {
                            assert(0 <= i - 1 - e && b[i - 1 - e] == Instruction::BeginLoop(e));
                            assert(p[i - e] == b[i - 1 - e]);
                        },
                        _ => {},
                    }
                }
            }
        },
        _ => {},
    }
}

/// The balance invariant for a whole tree: compiling it yields symmetric
/// loop-begin/loop-end offset pairs throughout the instruction array.
pub proof fn lemma_compile_nodes_balanced(s: Seq<Node>)
    requires
        compile_nodes(s).len() <= usize::MAX,
    ensures
        offsets_symmetric(compile_nodes(s)),
    decreases s,
{
    if s.len() == 0 {
    } else {
        let front = compile_nodes(s.drop_last());
        let back = compile_node(s.last());
        assert(compile_nodes(s) == front + back);
        assert(front.len() <= compile_nodes(s).len() && back.len() <= compile_nodes(s).len());
        lemma_compile_nodes_balanced(s.drop_last());
        lemma_compile_node_balanced(s.last());
        lemma_offsets_symmetric_add(front, back);
    }
}

/// Running the body of a clear loop: with the counter on the
/// decrement-by-1 and the cell at `v >= 1`, two steps per pass leave the
/// cell at zero and the counter one past the loop-end.
proof fn lemma_clear_inner(w: MachineState, v: u8)
    requires
        !w.failed,
        wf(w),
        w.pc + 2 <= w.program.len(),
        w.program[w.pc as int] == Instruction::Decr(1),
        w.program[w.pc as int + 1] == Instruction::EndLoop(2),
        w.mem[w.ptr as int] == v,
        v >= 1,
    ensures
        steps(w, (2 * v) as nat) == (MachineState {
            pc: w.pc + 2,
            mem: w.mem.update(w.ptr as int, 0),
            ..w
        }),
    decreases v,
{
    let w1 = step(w);
    let w2 = step(w1);
    assert(steps(w, 0) == w);
    assert(steps(w, 1) == step(w));
    assert(steps(w, 2) == step(steps(w, 1)));
    assert(w1.mem[w.ptr as int] == v - 1);
    if v == 1 {
        assert(w2 == (MachineState { pc: w.pc + 2, mem: w.mem.update(w.ptr as int, 0), ..w }));
    } else {
        assert(w2 == (MachineState {
            pc: w.pc,
            mem: w.mem.update(w.ptr as int, (v - 1) as u8),
            ..w
        }));
        lemma_clear_inner(w2, (v - 1) as u8);
        lemma_steps_add(w, 2, (2 * (v - 1)) as nat);
        assert(w2.mem.update(w.ptr as int, 0) =~= w.mem.update(w.ptr as int, 0));
    }
}

/// Clear-loop equivalence: a loop holding exactly one decrement-by-1,
/// run directly, zeroes the current cell in one pass per unit of its
/// starting value; the folded set-to-0 instruction reaches the same cell
/// value, tape, and output in a single step.
pub proof fn lemma_clear_loop_equivalence(m: MachineState, f: MachineState)
    requires
        running(m),
        wf(m),
        m.pc + 3 <= m.program.len(),
        m.program[m.pc as int] == Instruction::BeginLoop(2),
        m.program[m.pc as int + 1] == Instruction::Decr(1),
        m.program[m.pc as int + 2] == Instruction::EndLoop(2),
        !f.failed,
        wf(f),
        f.pc < f.program.len(),
        f.program[f.pc as int] == Instruction::SetCell(0),
        f.mem == m.mem,
        f.ptr == m.ptr,
        f.input == m.input,
        f.inpos == m.inpos,
        f.output == m.output,
    ensures
        ({
            let v = m.mem[m.ptr as int];
            let direct = steps(m, (1 + 2 * v) as nat);
            let folded = step(f);
            &&& direct == (MachineState { pc: m.pc + 3, mem: m.mem.update(m.ptr as int, 0), ..m })
            &&& folded == (MachineState {
                pc: f.pc + 1,
                mem: f.mem.update(f.ptr as int, 0),
                ..f
            })
            &&& direct.mem == folded.mem
            &&& direct.ptr == folded.ptr
            &&& direct.output == folded.output
            &&& direct.inpos == folded.inpos
            &&& !direct.failed && !folded.failed
        }),
{
    let v = m.mem[m.ptr as int];
    let m1 = step(m);
    assert(steps(m, 0) == m);
    assert(steps(m, 1) == step(m));
    if v == 0 {
        assert(m1 == (MachineState { pc: m.pc + 3, ..m }));
        assert(m.mem.update(m.ptr as int, 0) =~= m.mem);
    } else {
        assert(m1 == (MachineState { pc: m.pc + 1, ..m }));
        lemma_clear_inner(m1, v);
        lemma_steps_add(m, 1, (2 * v) as nat);
    }
}

proof fn lemma_scan_right_props(mem: Seq<u8>, p: nat)
    ensures
        match scan_right_from(mem, p) {
            Some(q) => p <= q < mem.len() && mem[q as int] == 0,
            None => true,
        },
    decreases mem.len() - p,
{
    if p < mem.len() && mem[p as int] != 0 {
        lemma_scan_right_props(mem, p + 1);
    }
}

/// Running the body of a rightward scan loop: with the counter on the
/// move-right-by-1 and a zero cell ahead at `q`, two steps per pass land
/// the cursor on `q` and the counter one past the loop-end.
proof fn lemma_scan_inner(w: MachineState, q: nat)
    requires
        !w.failed,
        wf(w),
        w.pc + 2 <= w.program.len(),
        w.program[w.pc as int] == Instruction::Next(1),
        w.program[w.pc as int + 1] == Instruction::EndLoop(2),
        scan_right_from(w.mem, w.ptr) == Some(q),
        w.mem[w.ptr as int] != 0,
    ensures
        steps(w, (2 * (q - w.ptr)) as nat) == (MachineState { pc: w.pc + 2, ptr: q, ..w }),
    decreases q - w.ptr,
{
    assert(scan_right_from(w.mem, w.ptr) == scan_right_from(w.mem, w.ptr + 1));
    lemma_scan_right_props(w.mem, w.ptr + 1);
    let w1 = step(w);
    let w2 = step(w1);
    assert(steps(w, 0) == w);
    assert(steps(w, 1) == step(w));
    assert(steps(w, 2) == step(steps(w, 1)));
    assert(w1 == (MachineState { pc: w.pc + 1, ptr: w.ptr + 1, ..w }));
    if w.mem[w.ptr as int + 1] == 0 {
        assert(q == w.ptr + 1);
        assert(w2 == (MachineState { pc: w.pc + 2, ptr: q, ..w }));
    } else {
        assert(w2 == (MachineState { pc: w.pc, ptr: w.ptr + 1, ..w }));
        lemma_scan_inner(w2, q);
        lemma_steps_add(w, 2, (2 * (q - w.ptr - 1)) as nat);
    }
}

/// Scan equivalence: a loop holding exactly one move-right-by-1, run
/// directly, advances the cursor to the next zero cell; the folded
/// scan-right instruction lands the cursor on the identical index in a
/// single step, with the same tape and output.
pub proof fn lemma_scan_loop_equivalence(m: MachineState, f: MachineState)
    requires
        running(m),
        wf(m),
        m.pc + 3 <= m.program.len(),
        m.program[m.pc as int] == Instruction::BeginLoop(2),
        m.program[m.pc as int + 1] == Instruction::Next(1),
        m.program[m.pc as int + 2] == Instruction::EndLoop(2),
        scan_right_from(m.mem, m.ptr) is Some,
        !f.failed,
        wf(f),
        f.pc < f.program.len(),
        f.program[f.pc as int] == Instruction::ScanRight,
        f.mem == m.mem,
        f.ptr == m.ptr,
        f.input == m.input,
        f.inpos == m.inpos,
        f.output == m.output,
    ensures
        ({
            let q = scan_right_from(m.mem, m.ptr)->0;
            let direct = steps(m, (1 + 2 * (q - m.ptr)) as nat);
            let folded = step(f);
            &&& direct == (MachineState { pc: m.pc + 3, ptr: q, ..m })
            &&& folded == (MachineState { pc: f.pc + 1, ptr: q, ..f })
            &&& direct.ptr == folded.ptr
            &&& direct.mem == folded.mem
            &&& direct.output == folded.output
            &&& direct.inpos == folded.inpos
            &&& !direct.failed && !folded.failed
        }),
{
    let q = scan_right_from(m.mem, m.ptr)->0;
    lemma_scan_right_props(m.mem, m.ptr);
    let m1 = step(m);
    assert(steps(m, 0) == m);
    assert(steps(m, 1) == step(m));
    if m.mem[m.ptr as int] == 0 {
        assert(q == m.ptr);
        assert(m1 == (MachineState { pc: m.pc + 3, ..m }));
    } else {
        assert(m1 == (MachineState { pc: m.pc + 1, ..m }));
        lemma_scan_inner(m1, q);
        lemma_steps_add(m, 1, (2 * (q - m.ptr)) as nat);
    }
}

proof fn lemma_scan_left_props(mem: Seq<u8>, p: nat)
    ensures
        match scan_left_from(mem, p) {
            Some(q) => q <= p && q < mem.len() && mem[q as int] == 0,
            None => true,
        },
    decreases p,
{
    if p < mem.len() && mem[p as int] != 0 && p > 0 {
        lemma_scan_left_props(mem, (p - 1) as nat);
    }
}

/// Running the body of a leftward scan loop: with the counter on the
/// move-left-by-1 and a zero cell behind at `q`, two steps per pass land
/// the cursor on `q` and the counter one past the loop-end.
proof fn lemma_scan_left_inner(w: MachineState, q: nat)
    requires
        !w.failed,
        wf(w),
        w.pc + 2 <= w.program.len(),
        w.program[w.pc as int] == Instruction::Prev(1),
        w.program[w.pc as int + 1] == Instruction::EndLoop(2),
        scan_left_from(w.mem, w.ptr) == Some(q),
        w.mem[w.ptr as int] != 0,
    ensures
        steps(w, (2 * (w.ptr - q)) as nat) == (MachineState { pc: w.pc + 2, ptr: q, ..w }),
    decreases w.ptr - q,
{
    lemma_scan_left_props(w.mem, w.ptr);
    assert(w.ptr > 0);
    assert(scan_left_from(w.mem, w.ptr) == scan_left_from(w.mem, (w.ptr - 1) as nat));
    lemma_scan_left_props(w.mem, (w.ptr - 1) as nat);
    let w1 = step(w);
    let w2 = step(w1);
    assert(steps(w, 0) == w);
    assert(steps(w, 1) == step(w));
    assert(steps(w, 2) == step(steps(w, 1)));
    assert(w1 == (MachineState { pc: w.pc + 1, ptr: (w.ptr - 1) as nat, ..w }));
    if w.mem[w.ptr as int - 1] == 0 {
        assert(q == w.ptr - 1);
        assert(w2 == (MachineState { pc: w.pc + 2, ptr: q, ..w }));
    } else {
        assert(w2 == (MachineState { pc: w.pc, ptr: (w.ptr - 1) as nat, ..w }));
        lemma_scan_left_inner(w2, q);
        lemma_steps_add(w, 2, (2 * (w.ptr - 1 - q)) as nat);
    }
}

/// Scan equivalence, leftward: a loop holding exactly one move-left-by-1,
/// run directly, retreats the cursor to the previous zero cell; the folded
/// scan-left instruction lands the cursor on the identical index in a
/// single step, with the same tape and output.
pub proof fn lemma_scan_left_loop_equivalence(m: MachineState, f: MachineState)
    requires
        running(m),
        wf(m),
        m.pc + 3 <= m.program.len(),
        m.program[m.pc as int] == Instruction::BeginLoop(2),
        m.program[m.pc as int + 1] == Instruction::Prev(1),
        m.program[m.pc as int + 2] == Instruction::EndLoop(2),
        scan_left_from(m.mem, m.ptr) is Some,
        !f.failed,
        wf(f),
        f.pc < f.program.len(),
        f.program[f.pc as int] == Instruction::ScanLeft,
        f.mem == m.mem,
        f.ptr == m.ptr,
        f.input == m.input,
        f.inpos == m.inpos,
        f.output == m.output,
    ensures
        ({
            let q = scan_left_from(m.mem, m.ptr)->0;
            let direct = steps(m, (1 + 2 * (m.ptr - q)) as nat);
            let folded = step(f);
            &&& direct == (MachineState { pc: m.pc + 3, ptr: q, ..m })
            &&& folded == (MachineState { pc: f.pc + 1, ptr: q, ..f })
            &&& direct.ptr == folded.ptr
            &&& direct.mem == folded.mem
            &&& direct.output == folded.output
            &&& direct.inpos == folded.inpos
            &&& !direct.failed && !folded.failed
        }),
{
    let q = scan_left_from(m.mem, m.ptr)->0;
    lemma_scan_left_props(m.mem, m.ptr);
    let m1 = step(m);
    assert(steps(m, 0) == m);
    assert(steps(m, 1) == step(m));
    if m.mem[m.ptr as int] == 0 {
        assert(q == m.ptr);
        assert(m1 == (MachineState { pc: m.pc + 3, ..m }));
    } else {
        assert(m1 == (MachineState { pc: m.pc + 1, ..m }));
        lemma_scan_left_inner(m1, q);
        lemma_steps_add(m, 1, (2 * (m.ptr - q)) as nat);
    }
}

/// The shape run-length merging gives a frame built from `n` identical
/// increment tokens: one node per full 255-run plus one for the rest,
/// every node an increment, all counts 255 but the last.
pub open spec fn incr_run_shape(f: Seq<Node>, n: int) -> bool {
    &&& 255 * (f.len() - 1) < n <= 255 * f.len()
    &&& (forall|i: int| 0 <= i < f.len() - 1 ==> f[i] == Node::Incr(255))
    &&& f.last() == Node::Incr((n - 255 * (f.len() - 1)) as u8)
}

pub open spec fn decr_run_shape(f: Seq<Node>, n: int) -> bool {
    &&& 255 * (f.len() - 1) < n <= 255 * f.len()
    &&& (forall|i: int| 0 <= i < f.len() - 1 ==> f[i] == Node::Decr(255))
    &&& f.last() == Node::Decr((n - 255 * (f.len() - 1)) as u8)
}

proof fn lemma_incr_fold_shape(toks: Seq<Token>)
    requires
        toks.len() >= 1,
        forall|i: int| 0 <= i < toks.len() ==> toks[i] == Token::Incr,
    ensures
        parse_fold(toks).err is None,
        parse_fold(toks).stack.len() == 1,
        incr_run_shape(parse_fold(toks).stack[0], toks.len() as int),
    decreases toks.len(),
{
    if toks.len() == 1 {
        assert(parse_fold(toks.drop_last()) == init_state());
        assert(init_state().stack[0] =~= Seq::<Node>::empty());
        let st = parse_fold(toks);
        assert(st.stack[0] == Seq::<Node>::empty().push(Node::Incr(1)));
    } else {
        assert(forall|i: int|
            0 <= i < toks.drop_last().len() ==> toks.drop_last()[i] == toks[i]);
        lemma_incr_fold_shape(toks.drop_last());
        let st0 = parse_fold(toks.drop_last());
        let f0 = st0.stack[0];
        let n0 = toks.len() - 1;
        let le = f0.len() as int;
        assert(f0.last() == Node::Incr((n0 - 255 * (le - 1)) as u8));
        let c = (n0 - 255 * (le - 1)) as u8;
        let st = parse_fold(toks);
        assert(st.stack[0] == if c < 255 {
            f0.update(le - 1, Node::Incr((c + 1) as u8))
        } else {
            f0.push(Node::Incr(1))
        });
    }
}

proof fn lemma_decr_fold_shape(toks: Seq<Token>)
    requires
        toks.len() >= 1,
        forall|i: int| 0 <= i < toks.len() ==> toks[i] == Token::Decr,
    ensures
        parse_fold(toks).err is None,
        parse_fold(toks).stack.len() == 1,
        decr_run_shape(parse_fold(toks).stack[0], toks.len() as int),
    decreases toks.len(),
{
    if toks.len() == 1 {
        assert(parse_fold(toks.drop_last()) == init_state());
        assert(init_state().stack[0] =~= Seq::<Node>::empty());
        let st = parse_fold(toks);
        assert(st.stack[0] == Seq::<Node>::empty().push(Node::Decr(1)));
    } else {
        assert(forall|i: int|
            0 <= i < toks.drop_last().len() ==> toks.drop_last()[i] == toks[i]);
        lemma_decr_fold_shape(toks.drop_last());
        let st0 = parse_fold(toks.drop_last());
        let f0 = st0.stack[0];
        let n0 = toks.len() - 1;
        let le = f0.len() as int;
        assert(f0.last() == Node::Decr((n0 - 255 * (le - 1)) as u8));
        let c = (n0 - 255 * (le - 1)) as u8;
        let st = parse_fold(toks);
        assert(st.stack[0] == if c < 255 {
            f0.update(le - 1, Node::Decr((c + 1) as u8))
        } else {
            f0.push(Node::Decr(1))
        });
    }
}

/// Run-length merging for increments: `n` consecutive `+` characters
/// parse to one increment node per full 255-run plus one for the rest —
/// exactly one node of count `n` when `n <= 255` — whose counts sum to `n`.
pub proof fn lemma_run_length_incr(s: Seq<char>)
    requires
        s.len() >= 1,
        forall|i: int| 0 <= i < s.len() ==> s[i] == '+',
    ensures
        parse_spec(s) is Ok,
        incr_run_shape(parse_spec(s)->Ok_0, s.len() as int),
{
    let toks = tokens_of(s);
    assert(forall|i: int| 0 <= i < toks.len() ==> toks[i] == Token::Incr);
    lemma_incr_fold_shape(toks);
}

/// Run-length merging for decrements, symmetrically.
pub proof fn lemma_run_length_decr(s: Seq<char>)
    requires
        s.len() >= 1,
        forall|i: int| 0 <= i < s.len() ==> s[i] == '-',
    ensures
        parse_spec(s) is Ok,
        decr_run_shape(parse_spec(s)->Ok_0, s.len() as int),
{
    let toks = tokens_of(s);
    assert(forall|i: int| 0 <= i < toks.len() ==> toks[i] == Token::Decr);
    lemma_decr_fold_shape(toks);
}

proof fn lemma_next_fold_shape(toks: Seq<Token>)
    requires
        1 <= toks.len() <= usize::MAX,
        forall|i: int| 0 <= i < toks.len() ==> toks[i] == Token::Next,
    ensures
        parse_fold(toks).err is None,
        parse_fold(toks).stack.len() == 1,
        parse_fold(toks).stack[0] =~= seq![Node::Next(toks.len() as usize)],
    decreases toks.len(),
{
    if toks.len() == 1 {
        assert(parse_fold(toks.drop_last()) == init_state());
        assert(init_state().stack[0] =~= Seq::<Node>::empty());
    } else {
        assert(forall|i: int|
            0 <= i < toks.drop_last().len() ==> toks.drop_last()[i] == toks[i]);
        lemma_next_fold_shape(toks.drop_last());
    }
}

proof fn lemma_prev_fold_shape(toks: Seq<Token>)
    requires
        1 <= toks.len() <= usize::MAX,
        forall|i: int| 0 <= i < toks.len() ==> toks[i] == Token::Prev,
    ensures
        parse_fold(toks).err is None,
        parse_fold(toks).stack.len() == 1,
        parse_fold(toks).stack[0] =~= seq![Node::Prev(toks.len() as usize)],
    decreases toks.len(),
{
    if toks.len() == 1 {
        assert(parse_fold(toks.drop_last()) == init_state());
        assert(init_state().stack[0] =~= Seq::<Node>::empty());
    } else {
        assert(forall|i: int|
            0 <= i < toks.drop_last().len() ==> toks.drop_last()[i] == toks[i]);
        lemma_prev_fold_shape(toks.drop_last());
    }
}

/// Movement characters have no count cap: `n` consecutive `>` characters
/// parse to a single move-right node of count `n`.
pub proof fn lemma_run_length_next(s: Seq<char>)
    requires
        1 <= s.len() <= usize::MAX,
        forall|i: int| 0 <= i < s.len() ==> s[i] == '>',
    ensures
        parse_spec(s) is Ok,
        parse_spec(s)->Ok_0 =~= seq![Node::Next(s.len() as usize)],
{
    let toks = tokens_of(s);
    assert(forall|i: int| 0 <= i < toks.len() ==> toks[i] == Token::Next);
    lemma_next_fold_shape(toks);
}

/// Movement characters have no count cap: `n` consecutive `<` characters
/// parse to a single move-left node of count `n`.
pub proof fn lemma_run_length_prev(s: Seq<char>)
    requires
        1 <= s.len() <= usize::MAX,
        forall|i: int| 0 <= i < s.len() ==> s[i] == '<',
    ensures
        parse_spec(s) is Ok,
        parse_spec(s)->Ok_0 =~= seq![Node::Prev(s.len() as usize)],
{
    let toks = tokens_of(s);
    assert(forall|i: int| 0 <= i < toks.len() ==> toks[i] == Token::Prev);
    lemma_prev_fold_shape(toks);
}

} // verus!
