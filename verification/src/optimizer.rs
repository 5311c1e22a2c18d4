//! Optimizer: three independent tree-rewrite passes, each a single top-down
//! traversal — scan-loop folding, clear-loop folding, and empty/redundant
//! loop elimination.

use vstd::prelude::*;
use vstd::pervasive::VecAdditionalExecFns;

use crate::cli::Cli;
use crate::parser::{lemma_view_nodes_push, view_node, view_nodes, ASTNode, Node};
use crate::util::likely;

verus! {

/// Scan-loop folding of one node: a loop whose body is exactly one
/// move-right-by-1 becomes a scan-right (symmetrically for move-left);
/// other single-child loops are left alone, and larger loop bodies are
/// rewritten recursively.
pub open spec fn scan_node(n: Node) -> Node
    decreases n,
{
    match n {
        Node::Loop(body) => {
            if body.len() == 1 {
                if body[0] == Node::Next(1) {
                    Node::ScanRight
                } else if body[0] == Node::Prev(1) {
                    Node::ScanLeft
                } else {
                    n
                }
            } else {
                Node::Loop(scan_nodes(body))
            }
        },
        _ => n,
    }
}

pub open spec fn scan_nodes(s: Seq<Node>) -> Seq<Node>
    decreases s,
{
    if s.len() == 0 {
        Seq::<Node>::empty()
    } else {
        scan_nodes(s.drop_last()).push(scan_node(s.last()))
    }
}

/// Clear-loop folding of one node: a loop whose body is exactly one
/// decrement-by-1 becomes a set-to-0; every other loop body is rewritten
/// recursively.
pub open spec fn clear_node(n: Node) -> Node
    decreases n,
{
    match n {
        Node::Loop(body) => {
            if body.len() == 1 && body[0] == Node::Decr(1) {
                Node::SetCell(0)
            } else {
                Node::Loop(clear_nodes(body))
            }
        },
        _ => n,
    }
}

pub open spec fn clear_nodes(s: Seq<Node>) -> Seq<Node>
    decreases s,
{
    if s.len() == 0 {
        Seq::<Node>::empty()
    } else {
        clear_nodes(s.drop_last()).push(clear_node(s.last()))
    }
}

/// Empty/redundant-loop elimination of one node, bottom-up: a loop whose
/// body reduces to nothing becomes a no-op (pruned by `elim_nodes`); a loop
/// whose body reduces to a single nested loop is collapsed to that loop.
pub open spec fn elim_node(n: Node) -> Node
    decreases n,
{
    match n {
        Node::Loop(body) => {
            let b = elim_nodes(body);
            if b.len() == 0 {
                Node::NoOp
            } else if b.len() == 1 && b[0] is Loop {
                b[0]
            } else {
                Node::Loop(b)
            }
        },
        _ => n,
    }
}

/// Elimination over a sequence: rewrite each node, pruning no-op markers.
pub open spec fn elim_nodes(s: Seq<Node>) -> Seq<Node>
    decreases s,
{
    if s.len() == 0 {
        Seq::<Node>::empty()
    } else {
        let done = elim_nodes(s.drop_last());
        let e = elim_node(s.last());
        if e is NoOp {
            done
        } else {
            done.push(e)
        }
    }
}

/// The three passes in order, each one toggleable: scan folding, then
/// clear folding, then loop elimination.
pub open spec fn optimize_spec(s: Seq<Node>, cli: Cli) -> Seq<Node> {
    let s1 = if !cli.f_no_optimize_scan {
        scan_nodes(s)
    } else {
        s
    };
    let s2 = if !cli.f_no_optimize_clear {
        clear_nodes(s1)
    } else {
        s1
    };
    if !cli.f_no_optimize_loops {
        elim_nodes(s2)
    } else {
        s2
    }
}

pub struct Optimizer {
    pub program: Vec<ASTNode>,
}

fn scan_helper(nodes: Vec<ASTNode>) -> (r: Vec<ASTNode>)
    ensures
        view_nodes(r@) == scan_nodes(view_nodes(nodes@)),
    decreases nodes@,
{
    let ghost vs = view_nodes(nodes@);
    let mut input = nodes;
    let mut out: Vec<ASTNode> = Vec::new();
    let mut idx: usize = 0;
    proof {
        assert(vs.take(0) =~= Seq::<Node>::empty());
    }
    while idx < input.len()
        invariant
            idx <= input@.len(),
            input@.len() == nodes@.len(),
            vs == view_nodes(nodes@),
            forall|j: int| idx <= j < input@.len() ==> input@[j] == nodes@[j],
            view_nodes(out@) == scan_nodes(vs.take(idx as int)),
        decreases input@.len() - idx,
    {
        let ghost out0 = out@;
        let mut tmp = ASTNode::NoOp;
        input.set_and_swap(idx, &mut tmp);
        proof {
            assert(tmp == nodes@[idx as int]);
            assert(vs[idx as int] == view_node(nodes@[idx as int]));
        }
        match tmp {
            ASTNode::Loop(body) => {
                if body.len() == 1 {
                    let mut rewritten: Option<ASTNode> = None;
                    match &body[0] {
                        ASTNode::Next(c) => {
                            if *c == 1 {
                                rewritten = Some(ASTNode::ScanRight);
                            }
                        },
                        ASTNode::Prev(c) => {
                            if *c == 1 {
                                rewritten = Some(ASTNode::ScanLeft);
                            }
                        },
                        _ => {},
                    }
                    proof {
                        assert(view_nodes(body@).len() == 1);
                        assert(view_nodes(body@)[0] == view_node(body@[0]));
                        assert(vs[idx as int] == Node::Loop(view_nodes(body@)));
                    }
                    match rewritten {
                        Some(r) => {
                            proof {
                                assert(view_node(r) == scan_node(vs[idx as int]));
                            }
                            out.push(r);
                        },
                        None => {
                            proof {
                                assert(scan_node(vs[idx as int]) == vs[idx as int]);
                            }
                            out.push(ASTNode::Loop(body));
                        },
                    }
                } else {
                    proof {
                        assert(decreases_to!(nodes@ => nodes@[idx as int]));
                        assert(decreases_to!(nodes@[idx as int] => body));
                        assert(decreases_to!(body => body@));
                        assert(vs[idx as int] == Node::Loop(view_nodes(body@)));
                    }
                    let nb = scan_helper(body);
                    out.push(ASTNode::Loop(nb));
                    proof {
                        assert(view_node(out@.last()) == Node::Loop(view_nodes(nb@)));
                        assert(view_node(out@.last()) == scan_node(vs[idx as int]));
                    }
                }
            },
            other => {
                proof {
                    assert(view_node(other) == vs[idx as int]);
                    assert(scan_node(vs[idx as int]) == vs[idx as int]);
                }
                out.push(other);
            },
        }
        idx = idx + 1;
        proof {
            lemma_view_nodes_push(out0, out@.last());
            assert(out@ == out0.push(out@.last()));
            assert(view_nodes(out@) == view_nodes(out0).push(view_node(out@.last())));
            assert(view_node(out@.last()) == scan_node(vs[idx as int - 1]));
            assert(vs.take(idx as int).drop_last() =~= vs.take(idx as int - 1));
            assert(vs.take(idx as int).last() == vs[idx as int - 1]);
            assert(scan_nodes(vs.take(idx as int)) == scan_nodes(vs.take(idx as int - 1)).push(
                scan_node(vs[idx as int - 1]),
            ));
        }
    }
    proof {
        assert(vs.take(idx as int) =~= vs);
    }
    out
}

fn clear_helper(nodes: Vec<ASTNode>) -> (r: Vec<ASTNode>)
    ensures
        view_nodes(r@) == clear_nodes(view_nodes(nodes@)),
    decreases nodes@,
{
    let ghost vs = view_nodes(nodes@);
    let mut input = nodes;
    let mut out: Vec<ASTNode> = Vec::new();
    let mut idx: usize = 0;
    proof {
        assert(vs.take(0) =~= Seq::<Node>::empty());
    }
    while idx < input.len()
        invariant
            idx <= input@.len(),
            input@.len() == nodes@.len(),
            vs == view_nodes(nodes@),
            forall|j: int| idx <= j < input@.len() ==> input@[j] == nodes@[j],
            view_nodes(out@) == clear_nodes(vs.take(idx as int)),
        decreases input@.len() - idx,
    {
        let ghost out0 = out@;
        let mut tmp = ASTNode::NoOp;
        input.set_and_swap(idx, &mut tmp);
        proof {
            assert(tmp == nodes@[idx as int]);
            assert(vs[idx as int] == view_node(nodes@[idx as int]));
        }
        match tmp {
            ASTNode::Loop(body) => {
                let mut is_clear = false;
                if body.len() == 1 {
                    match &body[0] {
                        ASTNode::Decr(c) => {
                            if *c == 1 {
                                is_clear = true;
                            }
                        },
                        _ => {},
                    }
                    proof {
                        assert(view_nodes(body@).len() == 1);
                        assert(view_nodes(body@)[0] == view_node(body@[0]));
                    }
                }
                proof {
                    assert(vs[idx as int] == Node::Loop(view_nodes(body@)));
                }
                if is_clear {
                    proof {
                        assert(clear_node(vs[idx as int]) == Node::SetCell(0));
                    }
                    out.push(ASTNode::SetCell(0));
                } else {
                    proof {
                        assert(decreases_to!(nodes@ => nodes@[idx as int]));
                        assert(decreases_to!(nodes@[idx as int] => body));
                        assert(decreases_to!(body => body@));
                    }
                    let nb = clear_helper(body);
                    out.push(ASTNode::Loop(nb));
                    proof {
                        assert(view_node(out@.last()) == Node::Loop(view_nodes(nb@)));
                        assert(view_node(out@.last()) == clear_node(vs[idx as int]));
                    }
                }
            },
            other => {
                proof {
                    assert(view_node(other) == vs[idx as int]);
                    assert(clear_node(vs[idx as int]) == vs[idx as int]);
                }
                out.push(other);
            },
        }
        idx = idx + 1;
        proof {
            lemma_view_nodes_push(out0, out@.last());
            assert(out@ == out0.push(out@.last()));
            assert(vs.take(idx as int).drop_last() =~= vs.take(idx as int - 1));
            assert(vs.take(idx as int).last() == vs[idx as int - 1]);
            assert(clear_nodes(vs.take(idx as int)) == clear_nodes(vs.take(idx as int - 1)).push(
                clear_node(vs[idx as int - 1]),
            ));
        }
    }
    proof {
        assert(vs.take(idx as int) =~= vs);
    }
    out
}

fn elim_helper(nodes: Vec<ASTNode>) -> (r: Vec<ASTNode>)
    ensures
        view_nodes(r@) == elim_nodes(view_nodes(nodes@)),
    decreases nodes@,
{
    let ghost vs = view_nodes(nodes@);
    let mut input = nodes;
    let mut out: Vec<ASTNode> = Vec::new();
    let mut idx: usize = 0;
    proof {
        assert(vs.take(0) =~= Seq::<Node>::empty());
    }
    while idx < input.len()
        invariant
            idx <= input@.len(),
            input@.len() == nodes@.len(),
            vs == view_nodes(nodes@),
            forall|j: int| idx <= j < input@.len() ==> input@[j] == nodes@[j],
            view_nodes(out@) == elim_nodes(vs.take(idx as int)),
        decreases input@.len() - idx,
    {
        let ghost out0 = out@;
        let mut tmp = ASTNode::NoOp;
        input.set_and_swap(idx, &mut tmp);
        proof {
            assert(tmp == nodes@[idx as int]);
            assert(vs[idx as int] == view_node(nodes@[idx as int]));
        }
        match tmp {
            ASTNode::Loop(body) => {
                proof {
                    assert(decreases_to!(nodes@ => nodes@[idx as int]));
                    assert(decreases_to!(nodes@[idx as int] => body));
                    assert(decreases_to!(body => body@));
                    assert(vs[idx as int] == Node::Loop(view_nodes(body@)));
                }
                let mut nb = elim_helper(body);
                if nb.len() == 0 {
                    // the loop body reduced to nothing: the loop is dropped
                    proof {
                        assert(elim_node(vs[idx as int]) is NoOp);
                    }
                } else {
                    let mut collapse = false;
                    if nb.len() == 1 {
                        match &nb[0] {
                            ASTNode::Loop(_) => {
                                collapse = true;
                            },
                            _ => {},
                        }
                        proof {
                            assert(view_nodes(nb@)[0] == view_node(nb@[0]));
                        }
                    }
                    if collapse {
                        let ghost nb0 = nb@;
                        let inner = nb.pop().unwrap();
                        out.push(inner);
                        proof {
                            assert(view_node(out@.last()) == view_nodes(nb0)[0]);
                            assert(view_node(out@.last()) == elim_node(vs[idx as int]));
                        }
                    } else {
                        out.push(ASTNode::Loop(nb));
                        proof {
                            assert(view_node(out@.last()) == Node::Loop(view_nodes(nb@)));
                            assert(view_node(out@.last()) == elim_node(vs[idx as int]));
                        }
                    }
                }
            },
            ASTNode::NoOp => {
                // stray no-op markers are pruned
                proof {
                    assert(vs[idx as int] is NoOp);
                    assert(elim_node(vs[idx as int]) is NoOp);
                }
            },
            other => {
                proof {
                    assert(view_node(other) == vs[idx as int]);
                    assert(elim_node(vs[idx as int]) == vs[idx as int]);
                    assert(!(vs[idx as int] is NoOp));
                }
                out.push(other);
            },
        }
        idx = idx + 1;
        proof {
            if out@.len() == out0.len() + 1 {
                lemma_view_nodes_push(out0, out@.last());
                assert(out@ == out0.push(out@.last()));
            }
            assert(vs.take(idx as int).drop_last() =~= vs.take(idx as int - 1));
            assert(vs.take(idx as int).last() == vs[idx as int - 1]);
        }
    }
    proof {
        assert(vs.take(idx as int) =~= vs);
    }
    out
}

impl Optimizer {
    pub fn new(program: Vec<ASTNode>) -> (r: Optimizer)
        ensures
            r.program == program,
    {
        Optimizer { program }
    }

    /// Runs the enabled passes in their fixed order: scan folding, clear
    /// folding, then empty/redundant-loop elimination.
    pub fn optimize(&mut self, cli: &Cli)
        ensures
            view_nodes(final(self).program@) == optimize_spec(view_nodes(old(self).program@), *cli),
    {
        if likely(!cli.f_no_optimize_scan) {
            self.scan_optimization();
        }
        if likely(!cli.f_no_optimize_clear) {
            self.clear_optimization();
        }
        if likely(!cli.f_no_optimize_loops) {
            self.remove_empty_loops();
        }
    }

    fn take_program(&mut self) -> (r: Vec<ASTNode>)
        ensures
            r == old(self).program,
            final(self).program@.len() == 0,
    {
        let mut swapped = Optimizer { program: Vec::new() };
        core::mem::swap(self, &mut swapped);
        swapped.program
    }

    pub fn scan_optimization(&mut self)
        ensures
            view_nodes(final(self).program@) == scan_nodes(view_nodes(old(self).program@)),
    {
        let prog = self.take_program();
        self.program = scan_helper(prog);
    }

    pub fn clear_optimization(&mut self)
        ensures
            view_nodes(final(self).program@) == clear_nodes(view_nodes(old(self).program@)),
    {
        let prog = self.take_program();
        self.program = clear_helper(prog);
    }

    pub fn remove_empty_loops(&mut self)
        ensures
            view_nodes(final(self).program@) == elim_nodes(view_nodes(old(self).program@)),
    {
        let prog = self.take_program();
        self.program = elim_helper(prog);
    }
}

} // verus!
