use bfi::compiler::Compiler;
use bfi::interpreter::{Instruction, Interpreter};
use bfi::lexer::Lexer;
use bfi::parser::{ASTNode, Parser};

#[test]
fn compiler_test_new() {
    let nodes = vec![ASTNode::Incr(1)];
    let compiler = Compiler::new(nodes);

    assert_eq!(compiler.nodes, vec![ASTNode::Incr(1)]);
}

#[test]
fn test_new_interpreter() {
    let program = String::from("");
    let lexer = Lexer::new(program);
    let mut parser = Parser::new(lexer);
    let ast = parser.parse_helper().unwrap();
    let interpreter = Interpreter::new(ast.data);

    assert_eq!(interpreter.program.len(), 0);
    assert_eq!(interpreter.memory.len(), 30000);
    assert_eq!(interpreter.memory_pointer, 0);
    assert_eq!(interpreter.program_counter, 0);
}

#[test]
fn test_interpreter_parse() {
    let program = String::from("+-<>[],.");
    let lexer = Lexer::new(program);
    let mut parser = Parser::new(lexer);
    let ast = parser.parse_helper().unwrap();
    let interpreter = Interpreter::new(ast.data);

    assert_eq!(interpreter.program.len(), 8);
    assert_eq!(interpreter.memory.len(), 30000);
    assert_eq!(interpreter.memory_pointer, 0);
    assert_eq!(interpreter.program_counter, 0);
}

#[test]
fn test_interpreter() {
    let mut interpreter = Interpreter::new_with_instructions(vec![
        Instruction::Incr(1),
        Instruction::Output,
        Instruction::Next(2),
        Instruction::SetCell(42),
        Instruction::ScanLeft,
        Instruction::SetCell(32),
    ]);

    assert!(interpreter.run(1000));

    assert_eq!(interpreter.memory[0], 1);
    assert_eq!(interpreter.memory[2], 42);
    assert_eq!(interpreter.memory[1], 32);
}

#[test]
fn test_compile_loop_offsets() {
    let program = Interpreter::compile(vec![
        ASTNode::Incr(2),
        ASTNode::Loop(vec![
            ASTNode::Decr(1),
            ASTNode::Loop(vec![ASTNode::Next(1)]),
        ]),
        ASTNode::Output,
    ]);
    assert_eq!(
        program,
        vec![
            Instruction::Incr(2),
            Instruction::BeginLoop(5),
            Instruction::Decr(1),
            Instruction::BeginLoop(2),
            Instruction::Next(1),
            Instruction::EndLoop(2),
            Instruction::EndLoop(5),
            Instruction::Output,
        ]
    );
}

#[test]
fn test_compile_drops_comments_and_noops() {
    let program = Interpreter::compile(vec![
        ASTNode::Comment('a'),
        ASTNode::Incr(1),
        ASTNode::NoOp,
        ASTNode::Comment('!'),
    ]);
    assert_eq!(program, vec![Instruction::Incr(1)]);
}

#[test]
fn test_cell_wraparound() {
    let mut interpreter = Interpreter::new_with_instructions(vec![
        Instruction::Incr(255),
        Instruction::Incr(2),
        Instruction::Decr(3),
    ]);
    assert!(interpreter.run(100));
    // 0 + 255 + 2 wraps to 1; 1 - 3 wraps to 254
    assert_eq!(interpreter.memory[0], 254);
    assert!(!interpreter.failed);
}

#[test]
fn test_input_reads_one_byte_per_op() {
    let mut interpreter = Interpreter::new_with_instructions(vec![
        Instruction::Input,
        Instruction::Output,
        Instruction::Next(1),
        Instruction::Input,
        Instruction::Output,
    ]);
    interpreter.input = vec![7, 9];
    assert!(interpreter.run(100));
    assert_eq!(interpreter.memory[0], 7);
    assert_eq!(interpreter.memory[1], 9);
    assert_eq!(interpreter.output, vec![7, 9]);
}

#[test]
fn test_input_exhausted_leaves_cell_unchanged() {
    let mut interpreter = Interpreter::new_with_instructions(vec![
        Instruction::SetCell(5),
        Instruction::Input,
        Instruction::Output,
    ]);
    assert!(interpreter.run(100));
    assert_eq!(interpreter.memory[0], 5);
    assert_eq!(interpreter.output, vec![5]);
}

#[test]
fn test_loop_skipped_on_zero_cell() {
    // [+] with a zero cell: the body is skipped entirely
    let mut interpreter = Interpreter::new_with_instructions(vec![
        Instruction::BeginLoop(2),
        Instruction::Incr(1),
        Instruction::EndLoop(2),
        Instruction::Output,
    ]);
    assert!(interpreter.run(100));
    assert_eq!(interpreter.memory[0], 0);
    assert_eq!(interpreter.output, vec![0]);
    assert!(!interpreter.failed);
}

#[test]
fn test_cursor_below_zero_fails() {
    let mut interpreter = Interpreter::new_with_instructions(vec![Instruction::Prev(1)]);
    assert!(interpreter.run(100));
    assert!(interpreter.failed);
}

#[test]
fn test_cursor_past_capacity_fails() {
    let mut interpreter = Interpreter::new_with_instructions(vec![Instruction::Next(30000)]);
    assert!(interpreter.run(100));
    assert!(interpreter.failed);
}

#[test]
fn test_run_out_of_fuel_reports_not_done() {
    // +[] loops forever on a nonzero cell
    let mut interpreter = Interpreter::new_with_instructions(vec![
        Instruction::Incr(1),
        Instruction::BeginLoop(1),
        Instruction::EndLoop(1),
    ]);
    assert!(!interpreter.run(1000));
    assert!(!interpreter.failed);
}
