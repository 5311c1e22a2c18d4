//! A thin holder for a tree awaiting compilation.

use vstd::prelude::*;

use crate::parser::ASTNode;

verus! {

pub struct Compiler {
    pub nodes: Vec<ASTNode>,
}

impl Compiler {
    pub fn new(nodes: Vec<ASTNode>) -> (r: Compiler)
        ensures
            r.nodes == nodes,
    {
        Compiler { nodes }
    }
}

} // verus!
