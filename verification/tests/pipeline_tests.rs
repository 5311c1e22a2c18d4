use bfi::cli::Cli;
use bfi::interpreter::{Instruction, Interpreter};
use bfi::lexer::Lexer;
use bfi::optimizer::Optimizer;
use bfi::parser::Parser;
use bfi::util::{likely, unlikely};

fn run_program(source: &str, input: Vec<u8>, cli: &Cli) -> Interpreter {
    let lexer = Lexer::new(String::from(source));
    let mut parser = Parser::new(lexer);
    let ast = parser.parse().unwrap();
    let mut optimizer = Optimizer::new(ast.data);
    optimizer.optimize(cli);
    let mut interpreter = Interpreter::new(optimizer.program);
    interpreter.input = input;
    assert!(interpreter.run(1_000_000));
    assert!(!interpreter.failed);
    interpreter
}

#[test]
fn scenario_default_pipeline() {
    let lexer = Lexer::new(String::from("+-<>[],."));
    let mut parser = Parser::new(lexer);
    let ast = parser.parse().unwrap();
    assert_eq!(ast.data.len(), 7);

    let mut optimizer = Optimizer::new(ast.data);
    optimizer.optimize(&Cli::default());
    // the empty loop is gone entirely
    assert_eq!(optimizer.program.len(), 6);

    let program = Interpreter::compile(optimizer.program);
    assert_eq!(program.len(), 6);
    assert_eq!(
        program,
        vec![
            Instruction::Incr(1),
            Instruction::Decr(1),
            Instruction::Prev(1),
            Instruction::Next(1),
            Instruction::Input,
            Instruction::Output,
        ]
    );
}

#[test]
fn scenario_cursor_relative_writes() {
    let mut interpreter = Interpreter::new_with_instructions(vec![
        Instruction::Incr(1),
        Instruction::Output,
        Instruction::Next(2),
        Instruction::SetCell(42),
        Instruction::ScanLeft,
        Instruction::SetCell(32),
    ]);
    assert!(interpreter.run(1000));
    assert!(!interpreter.failed);
    // cell 0 keeps its post-increment value and was written out
    assert_eq!(interpreter.memory[0], 1);
    assert_eq!(interpreter.output, vec![1]);
    // the write lands at the moved-to cell, nothing in between touched
    assert_eq!(interpreter.memory[2], 42);
    assert_eq!(interpreter.memory[1], 32);
    assert_eq!(interpreter.memory[3], 0);
}

#[test]
fn scenario_optimizations_preserve_behavior() {
    let source = ",[>+<-]>.+++[-]>++[<]>.";
    let input = vec![7u8];
    let everything_off = Cli {
        debug: false,
        f_no_optimize_scan: true,
        f_no_optimize_clear: true,
        f_no_optimize_loops: true,
    };
    let plain = run_program(source, input.clone(), &everything_off);
    let optimized = run_program(source, input, &Cli::default());
    assert_eq!(plain.output, optimized.output);
    assert_eq!(plain.memory, optimized.memory);
    assert_eq!(plain.memory_pointer, optimized.memory_pointer);
}

#[test]
fn scenario_clear_loop_equivalent_to_set_zero() {
    let mut direct = Interpreter::new_with_instructions(vec![
        Instruction::Incr(200),
        Instruction::BeginLoop(2),
        Instruction::Decr(1),
        Instruction::EndLoop(2),
    ]);
    assert!(direct.run(1000));
    let mut folded = Interpreter::new_with_instructions(vec![
        Instruction::Incr(200),
        Instruction::SetCell(0),
    ]);
    assert!(folded.run(1000));
    assert_eq!(direct.memory, folded.memory);
    assert_eq!(direct.memory[0], 0);
}

#[test]
fn scenario_scan_loop_lands_on_same_cell() {
    let setup = vec![
        Instruction::Incr(5),
        Instruction::Next(1),
        Instruction::Incr(3),
        Instruction::Prev(1),
    ];
    let mut direct_program = setup.clone();
    direct_program.push(Instruction::BeginLoop(2));
    direct_program.push(Instruction::Next(1));
    direct_program.push(Instruction::EndLoop(2));
    let mut direct = Interpreter::new_with_instructions(direct_program);
    assert!(direct.run(1000));

    let mut folded_program = setup;
    folded_program.push(Instruction::ScanRight);
    let mut folded = Interpreter::new_with_instructions(folded_program);
    assert!(folded.run(1000));

    assert_eq!(direct.memory_pointer, 2);
    assert_eq!(folded.memory_pointer, 2);
    assert_eq!(direct.memory, folded.memory);
}

#[test]
fn test_likely_unlikely_identity() {
    assert!(likely(true));
    assert!(!likely(false));
    assert!(unlikely(true));
    assert!(!unlikely(false));
}

#[test]
fn test_default_cli() {
    let cli = Cli::default();
    assert!(!cli.debug);
    assert!(!cli.f_no_optimize_scan);
    assert!(!cli.f_no_optimize_clear);
    assert!(!cli.f_no_optimize_loops);
}
