//! Semantic preservation of the optimization passes, measured against the
//! tree evaluator: any run of a program that completes within some fuel
//! completes, within the same fuel, with the identical tape, cursor,
//! input consumption, and output after the pass has rewritten the tree.
//! (The converse direction does not hold for loop elimination: a loop
//! whose body reduces to empty never completes on a nonzero cell, while
//! the rewritten program goes on without it.)

use vstd::prelude::*;

use crate::cli::Cli;
use crate::eval::{eval_node, eval_nodes, Outcome, TapeState};
use crate::interpreter::{scan_left_from, scan_right_from, sub_wrap};
use crate::optimizer::{
    clear_node, clear_nodes, elim_node, elim_nodes, optimize_spec, scan_node, scan_nodes,
};
use crate::parser::Node;

verus! {

proof fn lemma_clear_nodes_pointwise(s: Seq<Node>)
    ensures
        clear_nodes(s).len() == s.len(),
        forall|i: int| 0 <= i < s.len() ==> clear_nodes(s)[i] == clear_node(s[i]),
    decreases s,
{
    if s.len() > 0 {
        lemma_clear_nodes_pointwise(s.drop_last());
    }
}

proof fn lemma_scan_nodes_pointwise(s: Seq<Node>)
    ensures
        scan_nodes(s).len() == s.len(),
        forall|i: int| 0 <= i < s.len() ==> scan_nodes(s)[i] == scan_node(s[i]),
    decreases s,
{
    if s.len() > 0 {
        lemma_scan_nodes_pointwise(s.drop_last());
    }
}

/// The idiomatic clear loop run out: it only ever ends with the current
/// cell at zero and everything else untouched.
proof fn lemma_clear_loop_local(st: TapeState, fuel: nat)
    requires
        eval_node(Node::Loop(seq![Node::Decr(1)]), st, fuel) is Done,
    ensures
        eval_node(Node::Loop(seq![Node::Decr(1)]), st, fuel) == Outcome::Done(TapeState {
            mem: st.mem.update(st.ptr as int, 0),
            ..st
        }),
    decreases fuel,
{
    let b = seq![Node::Decr(1)];
    assert(b[0] == Node::Decr(1));
    if st.mem[st.ptr as int] == 0 {
        assert(st.mem.update(st.ptr as int, 0) =~= st.mem);
    } else {
        let st_d = TapeState {
            mem: st.mem.update(st.ptr as int, sub_wrap(st.mem[st.ptr as int], 1)),
            ..st
        };
        assert(b.skip(1) =~= Seq::<Node>::empty());
        assert(eval_node(b[0], st, fuel) == Outcome::Done(st_d));
        assert(eval_nodes(b.skip(1), st_d, fuel) == Outcome::Done(st_d));
        assert(eval_nodes(b, st, fuel) == Outcome::Done(st_d));
        lemma_clear_loop_local(st_d, (fuel - 1) as nat);
        assert(st_d.mem.update(st.ptr as int, 0) =~= st.mem.update(st.ptr as int, 0));
    }
}

/// Clear-loop folding preserves every completed run, node by node.
pub proof fn lemma_clear_node_preserves(n: Node, st: TapeState, fuel: nat)
    requires
        eval_node(n, st, fuel) is Done,
    ensures
        eval_node(clear_node(n), st, fuel) == eval_node(n, st, fuel),
    decreases fuel, n,
{
    match n {
        Node::Loop(body) => {
            if body.len() == 1 && body[0] == Node::Decr(1) {
                assert(body =~= seq![Node::Decr(1)]);
                lemma_clear_loop_local(st, fuel);
                assert(clear_node(n) == Node::SetCell(0));
            } else {
                if st.mem[st.ptr as int] == 0 {
                } else {
                    match eval_nodes(body, st, fuel) {
                        Outcome::Done(st2) => {
                            lemma_clear_nodes_preserves(body, st, fuel);
                            lemma_clear_node_preserves(n, st2, (fuel - 1) as nat);
                        },
                        _ => {},
                    }
                }
            }
        },
        _ => {},
    }
}

/// The rightward scan loop run out: it only ever ends with the cursor on
/// the first zero cell at or to the right of where it started.
proof fn lemma_scan_right_local(st: TapeState, fuel: nat)
    requires
        eval_node(Node::Loop(seq![Node::Next(1)]), st, fuel) is Done,
    ensures
        scan_right_from(st.mem, st.ptr) is Some,
        eval_node(Node::Loop(seq![Node::Next(1)]), st, fuel) == Outcome::Done(TapeState {
            ptr: scan_right_from(st.mem, st.ptr)->0,
            ..st
        }),
    decreases fuel,
{
    let b = seq![Node::Next(1)];
    assert(b[0] == Node::Next(1));
    if st.mem[st.ptr as int] == 0 {
        assert(scan_right_from(st.mem, st.ptr) == Some(st.ptr));
    } else {
        let st_n = TapeState { ptr: (st.ptr + 1) as nat, ..st };
        assert(b.skip(1) =~= Seq::<Node>::empty());
        assert(eval_node(b[0], st, fuel) == Outcome::Done(st_n));
        assert(eval_nodes(b.skip(1), st_n, fuel) == Outcome::Done(st_n));
        assert(eval_nodes(b, st, fuel) == Outcome::Done(st_n));
        lemma_scan_right_local(st_n, (fuel - 1) as nat);
        assert(scan_right_from(st.mem, st.ptr) == scan_right_from(st.mem, st.ptr + 1));
    }
}

/// The leftward scan loop run out, symmetrically.
proof fn lemma_scan_left_local(st: TapeState, fuel: nat)
    requires
        eval_node(Node::Loop(seq![Node::Prev(1)]), st, fuel) is Done,
    ensures
        scan_left_from(st.mem, st.ptr) is Some,
        eval_node(Node::Loop(seq![Node::Prev(1)]), st, fuel) == Outcome::Done(TapeState {
            ptr: scan_left_from(st.mem, st.ptr)->0,
            ..st
        }),
    decreases fuel,
{
    let b = seq![Node::Prev(1)];
    assert(b[0] == Node::Prev(1));
    if st.mem[st.ptr as int] == 0 {
        assert(scan_left_from(st.mem, st.ptr) == Some(st.ptr));
    } else {
        let st_n = TapeState { ptr: (st.ptr - 1) as nat, ..st };
        assert(b.skip(1) =~= Seq::<Node>::empty());
        assert(eval_node(b[0], st, fuel) == Outcome::Done(st_n));
        assert(eval_nodes(b.skip(1), st_n, fuel) == Outcome::Done(st_n));
        assert(eval_nodes(b, st, fuel) == Outcome::Done(st_n));
        lemma_scan_left_local(st_n, (fuel - 1) as nat);
        assert(scan_left_from(st.mem, st.ptr) == scan_left_from(st.mem, (st.ptr - 1) as nat));
    }
}

/// Scan-loop folding preserves every completed run, node by node.
pub proof fn lemma_scan_node_preserves(n: Node, st: TapeState, fuel: nat)
    requires
        eval_node(n, st, fuel) is Done,
    ensures
        eval_node(scan_node(n), st, fuel) == eval_node(n, st, fuel),
    decreases fuel, n,
{
    match n {
        Node::Loop(body) => {
            if body.len() == 1 {
                if body[0] == Node::Next(1) {
                    assert(body =~= seq![Node::Next(1)]);
                    lemma_scan_right_local(st, fuel);
                    assert(scan_node(n) == Node::ScanRight);
                } else if body[0] == Node::Prev(1) {
                    assert(body =~= seq![Node::Prev(1)]);
                    lemma_scan_left_local(st, fuel);
                    assert(scan_node(n) == Node::ScanLeft);
                }
            } else {
                if st.ptr < st.mem.len() && st.mem[st.ptr as int] != 0 {
                    match eval_nodes(body, st, fuel) {
                        Outcome::Done(st2) => {
                            lemma_scan_nodes_preserves(body, st, fuel);
                            lemma_scan_node_preserves(n, st2, (fuel - 1) as nat);
                        },
                        _ => {},
                    }
                }
            }
        },
        _ => {},
    }
}

/// Scan-loop folding preserves every completed run of a node sequence.
pub proof fn lemma_scan_nodes_preserves(s: Seq<Node>, st: TapeState, fuel: nat)
    requires
        eval_nodes(s, st, fuel) is Done,
    ensures
        eval_nodes(scan_nodes(s), st, fuel) == eval_nodes(s, st, fuel),
    decreases fuel, s,
{
    lemma_scan_nodes_pointwise(s);
    if s.len() == 0 {
    } else {
        match eval_node(s[0], st, fuel) {
            Outcome::Done(st1) => {
                lemma_scan_node_preserves(s[0], st, fuel);
                lemma_scan_nodes_preserves(s.skip(1), st1, fuel);
                lemma_scan_nodes_pointwise(s.skip(1));
                assert(scan_nodes(s).skip(1) =~= scan_nodes(s.skip(1)));
                assert(scan_nodes(s)[0] == scan_node(s[0]));
            },
            _ => {},
        }
    }
}

/// Clear-loop folding preserves every completed run of a node sequence.
pub proof fn lemma_clear_nodes_preserves(s: Seq<Node>, st: TapeState, fuel: nat)
    requires
        eval_nodes(s, st, fuel) is Done,
    ensures
        eval_nodes(clear_nodes(s), st, fuel) == eval_nodes(s, st, fuel),
    decreases fuel, s,
{
    lemma_clear_nodes_pointwise(s);
    if s.len() == 0 {
    } else {
        match eval_node(s[0], st, fuel) {
            Outcome::Done(st1) => {
                lemma_clear_node_preserves(s[0], st, fuel);
                lemma_clear_nodes_preserves(s.skip(1), st1, fuel);
                lemma_clear_nodes_pointwise(s.skip(1));
                assert(clear_nodes(s).skip(1) =~= clear_nodes(s.skip(1)));
                assert(clear_nodes(s)[0] == clear_node(s[0]));
            },
            _ => {},
        }
    }
}

/// Splitting off the first node of an eliminated sequence: the rewrite of
/// the head (kept unless it reduced to a no-op) followed by the rewrite
/// of the rest.
proof fn lemma_elim_head(s: Seq<Node>)
    requires
        s.len() > 0,
    ensures
        elim_nodes(s) == (if elim_node(s[0]) is NoOp {
            Seq::<Node>::empty()
        } else {
            seq![elim_node(s[0])]
        }) + elim_nodes(s.skip(1)),
    decreases s.len(),
{
    let h = if elim_node(s[0]) is NoOp {
        Seq::<Node>::empty()
    } else {
        seq![elim_node(s[0])]
    };
    if s.len() == 1 {
        assert(s.drop_last() =~= Seq::<Node>::empty());
        assert(s.skip(1) =~= Seq::<Node>::empty());
        assert(s.last() == s[0]);
        assert(elim_nodes(s) =~= h + elim_nodes(s.skip(1)));
    } else {
        lemma_elim_head(s.drop_last());
        assert(s.drop_last()[0] == s[0]);
        assert(s.drop_last().skip(1) =~= s.skip(1).drop_last());
        assert(s.skip(1).last() == s.last());
        let e = elim_node(s.last());
        if e is NoOp {
            assert(elim_nodes(s.skip(1)) == elim_nodes(s.skip(1).drop_last()));
            assert(elim_nodes(s) =~= h + elim_nodes(s.skip(1)));
        } else {
            assert(elim_nodes(s.skip(1)) == elim_nodes(s.skip(1).drop_last()).push(e));
            assert(elim_nodes(s) =~= h + elim_nodes(s.skip(1)));
        }
    }
}

/// Evaluating a concatenation: the first block runs, then, if it
/// completed, the second from where it left off.
proof fn lemma_eval_concat(a: Seq<Node>, b: Seq<Node>, st: TapeState, fuel: nat)
    ensures
        eval_nodes(a + b, st, fuel) == (match eval_nodes(a, st, fuel) {
            Outcome::Done(st1) => eval_nodes(b, st1, fuel),
            o => o,
        }),
    decreases a.len(),
{
    if a.len() == 0 {
        assert(a + b =~= b);
    } else {
        assert((a + b)[0] == a[0]);
        assert((a + b).skip(1) =~= a.skip(1) + b);
        match eval_node(a[0], st, fuel) {
            Outcome::Done(st1) => {
                lemma_eval_concat(a.skip(1), b, st1, fuel);
            },
            _ => {},
        }
    }
}

/// A loop only ever completes with the current cell at zero.
proof fn lemma_loop_done_zero(body: Seq<Node>, st: TapeState, fuel: nat)
    requires
        eval_node(Node::Loop(body), st, fuel) is Done,
    ensures
        ({
            let r = eval_node(Node::Loop(body), st, fuel)->0;
            r.ptr < r.mem.len() && r.mem[r.ptr as int] == 0
        }),
    decreases fuel,
{
    if st.ptr < st.mem.len() && st.mem[st.ptr as int] != 0 {
        match eval_nodes(body, st, fuel) {
            Outcome::Done(st2) => {
                lemma_loop_done_zero(body, st2, (fuel - 1) as nat);
            },
            _ => {},
        }
    }
}

/// A node that elimination reduces to a no-op has no effect in any
/// completed run.
proof fn lemma_elim_noop_node(x: Node, st: TapeState, fuel: nat)
    requires
        elim_node(x) is NoOp,
        eval_node(x, st, fuel) is Done,
    ensures
        eval_node(x, st, fuel) == Outcome::Done(st),
    decreases fuel, x,
{
    match x {
        Node::Loop(body) => {
            if st.mem[st.ptr as int] != 0 {
                match eval_nodes(body, st, fuel) {
                    Outcome::Done(st2) => {
                        lemma_elim_noop_nodes(body, st, fuel);
                        lemma_elim_noop_node(x, st2, (fuel - 1) as nat);
                    },
                    _ => {},
                }
            }
        },
        _ => {},
    }
}

/// A sequence that elimination reduces to nothing has no effect in any
/// completed run.
proof fn lemma_elim_noop_nodes(s: Seq<Node>, st: TapeState, fuel: nat)
    requires
        elim_nodes(s).len() == 0,
        eval_nodes(s, st, fuel) is Done,
    ensures
        eval_nodes(s, st, fuel) == Outcome::Done(st),
    decreases fuel, s,
{
    if s.len() > 0 {
        lemma_elim_head(s);
        assert(elim_node(s[0]) is NoOp);
        assert(elim_nodes(s.skip(1)).len() == 0);
        match eval_node(s[0], st, fuel) {
            Outcome::Done(st1) => {
                lemma_elim_noop_node(s[0], st, fuel);
                lemma_elim_noop_nodes(s.skip(1), st1, fuel);
            },
            _ => {},
        }
    }
}

/// A loop whose body elimination reduces to nothing never completes on a
/// nonzero cell: it spins in place until the fuel runs out.
proof fn lemma_empty_loop_not_done(body: Seq<Node>, st: TapeState, fuel: nat)
    requires
        elim_nodes(body).len() == 0,
        st.ptr < st.mem.len(),
        st.mem[st.ptr as int] != 0,
    ensures
        !(eval_node(Node::Loop(body), st, fuel) is Done),
    decreases fuel,
{
    match eval_nodes(body, st, fuel) {
        Outcome::Done(st2) => {
            lemma_elim_noop_nodes(body, st, fuel);
            if fuel > 0 {
                lemma_empty_loop_not_done(body, st, (fuel - 1) as nat);
            }
        },
        _ => {},
    }
}

/// Empty/redundant-loop elimination preserves every completed run, node
/// by node.
pub proof fn lemma_elim_node_preserves(n: Node, st: TapeState, fuel: nat)
    requires
        eval_node(n, st, fuel) is Done,
    ensures
        eval_node(elim_node(n), st, fuel) == eval_node(n, st, fuel),
    decreases fuel, n,
{
    match n {
        Node::Loop(body) => {
            let b = elim_nodes(body);
            if st.mem[st.ptr as int] == 0 {
                // both sides finish at once: the rewritten node is a no-op,
                // a loop, or a collapsed inner loop, all idle on a zero cell
            } else {
                match eval_nodes(body, st, fuel) {
                    Outcome::Done(st2) => {
                        if b.len() == 0 {
                            lemma_empty_loop_not_done(body, st, fuel);
                        } else if b.len() == 1 && b[0] is Loop {
                            lemma_elim_nodes_preserves(body, st, fuel);
                            assert(b.skip(1) =~= Seq::<Node>::empty());
                            match eval_node(b[0], st, fuel) {
                                Outcome::Done(x) => {
                                    assert(eval_nodes(b.skip(1), x, fuel) == Outcome::Done(x));
                                    assert(eval_nodes(b, st, fuel) == Outcome::Done(x));
                                },
                                _ => {
                                    assert(eval_nodes(b, st, fuel) == eval_node(b[0], st, fuel));
                                },
                            }
                            assert(eval_node(b[0], st, fuel) == Outcome::Done(st2));
                            match b[0] {
                                Node::Loop(inner) => {
                                    lemma_loop_done_zero(inner, st, fuel);
                                },
                                _ => {},
                            }
                            assert(eval_node(n, st2, (fuel - 1) as nat) == Outcome::Done(st2));
                        } else {
                            lemma_elim_nodes_preserves(body, st, fuel);
                            lemma_elim_node_preserves(n, st2, (fuel - 1) as nat);
                        }
                    },
                    _ => {},
                }
            }
        },
        _ => {},
    }
}

/// Empty/redundant-loop elimination preserves every completed run of a
/// node sequence.
pub proof fn lemma_elim_nodes_preserves(s: Seq<Node>, st: TapeState, fuel: nat)
    requires
        eval_nodes(s, st, fuel) is Done,
    ensures
        eval_nodes(elim_nodes(s), st, fuel) == eval_nodes(s, st, fuel),
    decreases fuel, s,
{
    if s.len() > 0 {
        lemma_elim_head(s);
        match eval_node(s[0], st, fuel) {
            Outcome::Done(st1) => {
                lemma_elim_nodes_preserves(s.skip(1), st1, fuel);
                if elim_node(s[0]) is NoOp {
                    lemma_elim_noop_node(s[0], st, fuel);
                    assert(Seq::<Node>::empty() + elim_nodes(s.skip(1)) =~= elim_nodes(
                        s.skip(1),
                    ));
                } else {
                    lemma_elim_node_preserves(s[0], st, fuel);
                    let h = seq![elim_node(s[0])];
                    lemma_eval_concat(h, elim_nodes(s.skip(1)), st, fuel);
                    assert(h[0] == elim_node(s[0]));
                    assert(h.skip(1) =~= Seq::<Node>::empty());
                    assert(eval_node(h[0], st, fuel) == Outcome::Done(st1));
                    assert(eval_nodes(h.skip(1), st1, fuel) == Outcome::Done(st1));
                    assert(eval_nodes(h, st, fuel) == Outcome::Done(st1));
                }
            },
            _ => {},
        }
    }
}

/// Semantic preservation: for any configuration of the three passes, a
/// program run that completes within some fuel completes identically —
/// same tape, cursor, input consumption, and output — after optimization,
/// within the same fuel.
pub proof fn lemma_optimize_preserves(s: Seq<Node>, cli: Cli, st: TapeState, fuel: nat)
    requires
        eval_nodes(s, st, fuel) is Done,
    ensures
        eval_nodes(optimize_spec(s, cli), st, fuel) == eval_nodes(s, st, fuel),
{
    let s1 = if !cli.f_no_optimize_scan {
        scan_nodes(s)
    } else {
        s
    };
    let s2 = if !cli.f_no_optimize_clear {
        clear_nodes(s1)
    } else {
        s1
    };
    if !cli.f_no_optimize_scan {
        lemma_scan_nodes_preserves(s, st, fuel);
    }
    if !cli.f_no_optimize_clear {
        lemma_clear_nodes_preserves(s1, st, fuel);
    }
    if !cli.f_no_optimize_loops {
        lemma_elim_nodes_preserves(s2, st, fuel);
    }
}

} // verus!
