use bfi::lexer::Lexer;
use bfi::parser::{ASTNode, AbstractSyntaxTree, ParseError, Parser};

fn parse_str(s: &str) -> Result<AbstractSyntaxTree, ParseError> {
    let lexer = Lexer::new(String::from(s));
    let mut parser = Parser::new(lexer);
    parser.parse()
}

#[test]
fn test_parser() {
    let input = String::from("+-<>[],.");
    let lexer = Lexer::new(input);
    let mut parser = Parser::new(lexer);

    let ast = parser.parse_helper().unwrap();
    let mut iter = ast.data.iter();

    assert_eq!(iter.len(), 7);
    assert_eq!(iter.next(), Some(&ASTNode::Incr(1)));
    assert_eq!(iter.next(), Some(&ASTNode::Decr(1)));
    assert_eq!(iter.next(), Some(&ASTNode::Prev(1)));
    assert_eq!(iter.next(), Some(&ASTNode::Next(1)));
    assert_eq!(iter.next(), Some(&ASTNode::Loop(vec![])));
    assert_eq!(iter.next(), Some(&ASTNode::Input));
    assert_eq!(iter.next(), Some(&ASTNode::Output));
    assert_eq!(iter.next(), None);
}

#[test]
fn test_loop_error_start() {
    assert_eq!(parse_str("[[]"), Err(ParseError::UnmatchedOpener));
}

#[test]
fn test_loop_error_end() {
    assert_eq!(parse_str("[]]"), Err(ParseError::UnmatchedCloser));
}

#[test]
fn test_noop() {
    let ast = AbstractSyntaxTree {
        data: vec![ASTNode::NoOp],
    };
    let mut iter = ast.data.iter();

    assert_eq!(iter.len(), 1);
    assert_eq!(iter.next(), Some(&ASTNode::NoOp));
}

#[test]
fn test_unmatched_opener_alone() {
    assert_eq!(parse_str("[["), Err(ParseError::UnmatchedOpener));
}

#[test]
fn test_unmatched_closer_alone() {
    assert_eq!(parse_str("]"), Err(ParseError::UnmatchedCloser));
}

#[test]
fn test_run_length_merge_cap() {
    let input: String = std::iter::repeat('+').take(300).collect();
    let ast = parse_str(&input).unwrap();
    assert_eq!(ast.data, vec![ASTNode::Incr(255), ASTNode::Incr(45)]);
}

#[test]
fn test_run_length_merge_exact() {
    let input: String = std::iter::repeat('-').take(255).collect();
    let ast = parse_str(&input).unwrap();
    assert_eq!(ast.data, vec![ASTNode::Decr(255)]);
}

#[test]
fn test_run_length_moves_uncapped() {
    let input: String = std::iter::repeat('>').take(300).collect();
    let ast = parse_str(&input).unwrap();
    assert_eq!(ast.data, vec![ASTNode::Next(300)]);
    let input: String = std::iter::repeat('<').take(256).collect();
    let ast = parse_str(&input).unwrap();
    assert_eq!(ast.data, vec![ASTNode::Prev(256)]);
}

#[test]
fn test_nested_loops_parse() {
    let ast = parse_str("+[>[-]<]").unwrap();
    assert_eq!(
        ast.data,
        vec![
            ASTNode::Incr(1),
            ASTNode::Loop(vec![
                ASTNode::Next(1),
                ASTNode::Loop(vec![ASTNode::Decr(1)]),
                ASTNode::Prev(1),
            ]),
        ]
    );
}

#[test]
fn test_comments_kept_as_nodes() {
    let ast = parse_str("a+b").unwrap();
    assert_eq!(
        ast.data,
        vec![
            ASTNode::Comment('a'),
            ASTNode::Incr(1),
            ASTNode::Comment('b'),
        ]
    );
}

#[test]
fn test_empty_input_parses_to_empty_tree() {
    let ast = parse_str("").unwrap();
    assert_eq!(ast.data, vec![]);
}
