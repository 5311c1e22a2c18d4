use bfi::cli::Cli;
use bfi::optimizer::Optimizer;
use bfi::parser::ASTNode;

#[test]
fn test_scan_right_left() {
    let mut optimizer = Optimizer::new(vec![ASTNode::Loop(vec![
        ASTNode::Incr(1),
        ASTNode::Next(1),
        ASTNode::Incr(1),
        ASTNode::Next(1),
        ASTNode::Incr(1),
        ASTNode::Prev(2),
        ASTNode::Loop(vec![ASTNode::Next(1)]),
        ASTNode::Loop(vec![ASTNode::Prev(1)]),
    ])]);

    optimizer.scan_optimization();

    assert_eq!(
        optimizer.program,
        vec![ASTNode::Loop(vec![
            ASTNode::Incr(1),
            ASTNode::Next(1),
            ASTNode::Incr(1),
            ASTNode::Next(1),
            ASTNode::Incr(1),
            ASTNode::Prev(2),
            ASTNode::ScanRight,
            ASTNode::ScanLeft,
        ])]
    );
}

#[test]
fn test_optimized_ast_nested() {
    let mut optimizer = Optimizer::new(vec![ASTNode::Loop(vec![
        ASTNode::Incr(100),
        ASTNode::Loop(vec![ASTNode::Next(1)]),
        ASTNode::Loop(vec![
            ASTNode::Next(1),
            ASTNode::Loop(vec![ASTNode::Next(1)]),
            ASTNode::Prev(1),
        ]),
    ])]);

    optimizer.scan_optimization();

    println!("{:?}", optimizer.program);

    assert_eq!(
        optimizer.program,
        vec![ASTNode::Loop(vec![
            ASTNode::Incr(100),
            ASTNode::ScanRight,
            ASTNode::Loop(vec![ASTNode::Next(1), ASTNode::ScanRight, ASTNode::Prev(1),]),
        ])]
    );
}

#[test]
fn simplify_nested_loops() {
    let mut optimizer = Optimizer::new(vec![ASTNode::Loop(vec![
        ASTNode::Loop(vec![ASTNode::Loop(vec![])]),
        ASTNode::Loop(vec![ASTNode::Loop(vec![ASTNode::Incr(1)])]),
    ])]);

    optimizer.remove_empty_loops();

    assert_eq!(
        optimizer.program,
        vec![ASTNode::Loop(vec![ASTNode::Incr(1)])]
    );
}

#[test]
fn remove_unused_loops() {
    let mut optimizer = Optimizer::new(vec![ASTNode::Loop(vec![ASTNode::Loop(vec![
        ASTNode::Loop(vec![ASTNode::Loop(vec![ASTNode::Loop(vec![
            ASTNode::Loop(vec![ASTNode::Loop(vec![ASTNode::Loop(vec![
                ASTNode::Loop(vec![ASTNode::Incr(1)]),
            ])])]),
        ])])]),
    ])])]);

    optimizer.remove_empty_loops();

    assert_eq!(
        optimizer.program,
        vec![ASTNode::Loop(vec![ASTNode::Incr(1)]),]
    );
}

#[test]
fn test_clear_loop_folds_to_set_zero() {
    let mut optimizer = Optimizer::new(vec![ASTNode::Loop(vec![ASTNode::Decr(1)])]);
    optimizer.clear_optimization();
    assert_eq!(optimizer.program, vec![ASTNode::SetCell(0)]);
}

#[test]
fn test_clear_loop_recurses_into_bodies() {
    let mut optimizer = Optimizer::new(vec![ASTNode::Loop(vec![
        ASTNode::Next(1),
        ASTNode::Loop(vec![ASTNode::Decr(1)]),
    ])]);
    optimizer.clear_optimization();
    assert_eq!(
        optimizer.program,
        vec![ASTNode::Loop(vec![ASTNode::Next(1), ASTNode::SetCell(0)])]
    );
}

#[test]
fn test_single_child_non_move_loop_not_scan_folded() {
    let mut optimizer = Optimizer::new(vec![ASTNode::Loop(vec![ASTNode::Loop(vec![
        ASTNode::Next(1),
    ])])]);
    optimizer.scan_optimization();
    // a single-child loop is checked, not recursed into: the nested
    // single-move loop stays as it is
    assert_eq!(
        optimizer.program,
        vec![ASTNode::Loop(vec![ASTNode::Loop(vec![ASTNode::Next(1)])])]
    );
}

#[test]
fn test_empty_loops_fully_removed() {
    let mut optimizer = Optimizer::new(vec![
        ASTNode::Incr(1),
        ASTNode::Loop(vec![ASTNode::Loop(vec![])]),
        ASTNode::NoOp,
        ASTNode::Output,
    ]);
    optimizer.remove_empty_loops();
    assert_eq!(optimizer.program, vec![ASTNode::Incr(1), ASTNode::Output]);
}

#[test]
fn test_optimize_respects_toggles() {
    let program = vec![
        ASTNode::Loop(vec![ASTNode::Decr(1)]),
        ASTNode::Loop(vec![ASTNode::Next(1)]),
        ASTNode::Loop(vec![]),
    ];
    let all_off = Cli {
        debug: false,
        f_no_optimize_scan: true,
        f_no_optimize_clear: true,
        f_no_optimize_loops: true,
    };
    let mut optimizer = Optimizer::new(program.clone_nodes());
    optimizer.optimize(&all_off);
    assert_eq!(optimizer.program, program);

    let mut optimizer = Optimizer::new(program.clone_nodes());
    optimizer.optimize(&Cli::default());
    assert_eq!(
        optimizer.program,
        vec![ASTNode::SetCell(0), ASTNode::ScanRight]
    );
}

trait CloneNodes {
    fn clone_nodes(&self) -> Vec<ASTNode>;
}

impl CloneNodes for Vec<ASTNode> {
    fn clone_nodes(&self) -> Vec<ASTNode> {
        self.iter()
            .map(|n| match n {
                ASTNode::Incr(c) => ASTNode::Incr(*c),
                ASTNode::Decr(c) => ASTNode::Decr(*c),
                ASTNode::Next(c) => ASTNode::Next(*c),
                ASTNode::Prev(c) => ASTNode::Prev(*c),
                ASTNode::Loop(b) => ASTNode::Loop(b.clone_nodes()),
                ASTNode::Input => ASTNode::Input,
                ASTNode::Output => ASTNode::Output,
                ASTNode::SetCell(c) => ASTNode::SetCell(*c),
                ASTNode::ScanLeft => ASTNode::ScanLeft,
                ASTNode::ScanRight => ASTNode::ScanRight,
                ASTNode::Comment(c) => ASTNode::Comment(*c),
                ASTNode::NoOp => ASTNode::NoOp,
            })
            .collect()
    }
}
