//! Tree builder: consumes tokens, grouping runs of identical arithmetic and
//! movement operators into counted nodes and bracket-delimited loop bodies
//! into nested sub-trees, while validating delimiter balance.

use vstd::prelude::*;

use crate::lexer::{tokens_of, Lexer, Token};

verus! {

#[derive(Debug, PartialEq)]
pub enum ASTNode {
    Incr(u8),
    Decr(u8),
    Next(usize),
    Prev(usize),
    Loop(Vec<ASTNode>),
    Input,
    Output,
    SetCell(u8),
    ScanLeft,
    ScanRight,
    Comment(char),
    NoOp,
}

/// The mathematical shape of a syntax tree node: identical to `ASTNode`,
/// with loop bodies as sequences. Contracts speak in terms of this type.
pub enum Node {
    Incr(u8),
    Decr(u8),
    Next(usize),
    Prev(usize),
    Loop(Seq<Node>),
    Input,
    Output,
    SetCell(u8),
    ScanLeft,
    ScanRight,
    Comment(char),
    NoOp,
}

/// The abstraction of one syntax tree node.
pub open spec fn view_node(n: ASTNode) -> Node
    decreases n,
{
    match n {
        ASTNode::Incr(c) => Node::Incr(c),
        ASTNode::Decr(c) => Node::Decr(c),
        ASTNode::Next(c) => Node::Next(c),
        ASTNode::Prev(c) => Node::Prev(c),
        ASTNode::Loop(body) => Node::Loop(view_nodes(body@)),
        ASTNode::Input => Node::Input,
        ASTNode::Output => Node::Output,
        ASTNode::SetCell(c) => Node::SetCell(c),
        ASTNode::ScanLeft => Node::ScanLeft,
        ASTNode::ScanRight => Node::ScanRight,
        ASTNode::Comment(c) => Node::Comment(c),
        ASTNode::NoOp => Node::NoOp,
    }
}

/// The abstraction of a sequence of syntax tree nodes.
pub open spec fn view_nodes(s: Seq<ASTNode>) -> Seq<Node>
    decreases s,
{
    Seq::new(
        s.len(),
        |i: int|
            if 0 <= i < s.len() {
                view_node(s[i])
            } else {
                Node::NoOp
            },
    )
}

#[derive(Debug, PartialEq, Eq, Structural, Clone, Copy)]
pub enum ParseError {
    /// The input was exhausted while a loop was still open.
    UnmatchedOpener,
    /// A loop closer was seen with no loop open.
    UnmatchedCloser,
}

#[derive(Debug, PartialEq)]
pub struct AbstractSyntaxTree {
    pub data: Vec<ASTNode>,
}

/// The state of a parse in progress: one sequence of finished nodes for the
/// top level plus one for each loop that is currently open, innermost last,
/// and the first fatal error met, if any.
pub struct ParseState {
    pub stack: Seq<Seq<Node>>,
    pub err: Option<ParseError>,
}

pub open spec fn init_state() -> ParseState {
    ParseState { stack: seq![Seq::<Node>::empty()], err: None }
}

/// Appending an increment token merges it into a trailing increment node
/// whose count has not yet reached the 255 cap.
pub open spec fn append_incr(f: Seq<Node>) -> Seq<Node> {
    if f.len() > 0 {
        match f.last() {
            Node::Incr(c) => if c < 255 {
                f.update(f.len() - 1, Node::Incr((c + 1) as u8))
            } else {
                f.push(Node::Incr(1))
            },
            _ => f.push(Node::Incr(1)),
        }
    } else {
        f.push(Node::Incr(1))
    }
}

pub open spec fn append_decr(f: Seq<Node>) -> Seq<Node> {
    if f.len() > 0 {
        match f.last() {
            Node::Decr(c) => if c < 255 {
                f.update(f.len() - 1, Node::Decr((c + 1) as u8))
            } else {
                f.push(Node::Decr(1))
            },
            _ => f.push(Node::Decr(1)),
        }
    } else {
        f.push(Node::Decr(1))
    }
}

/// Movement counts are unbounded; the `usize::MAX` guard can never fire,
/// since a count never exceeds the number of tokens consumed.
pub open spec fn append_next(f: Seq<Node>) -> Seq<Node> {
    if f.len() > 0 {
        match f.last() {
            Node::Next(c) => if c < usize::MAX {
                f.update(f.len() - 1, Node::Next((c + 1) as usize))
            } else {
                f.push(Node::Next(1))
            },
            _ => f.push(Node::Next(1)),
        }
    } else {
        f.push(Node::Next(1))
    }
}

pub open spec fn append_prev(f: Seq<Node>) -> Seq<Node> {
    if f.len() > 0 {
        match f.last() {
            Node::Prev(c) => if c < usize::MAX {
                f.update(f.len() - 1, Node::Prev((c + 1) as usize))
            } else {
                f.push(Node::Prev(1))
            },
            _ => f.push(Node::Prev(1)),
        }
    } else {
        f.push(Node::Prev(1))
    }
}

/// How one token transforms the parse state. A fatal error is absorbing.
pub open spec fn parse_step(st: ParseState, t: Token) -> ParseState {
    if st.err is Some || st.stack.len() == 0 {
        st
    } else {
        let k = st.stack.len() - 1;
        let top = st.stack[k];
        match t {
            Token::Incr => ParseState { stack: st.stack.update(k, append_incr(top)), err: st.err },
            Token::Decr => ParseState { stack: st.stack.update(k, append_decr(top)), err: st.err },
            Token::Next => ParseState { stack: st.stack.update(k, append_next(top)), err: st.err },
            Token::Prev => ParseState { stack: st.stack.update(k, append_prev(top)), err: st.err },
            Token::Input => ParseState {
                stack: st.stack.update(k, top.push(Node::Input)),
                err: st.err,
            },
            Token::Output => ParseState {
                stack: st.stack.update(k, top.push(Node::Output)),
                err: st.err,
            },
            Token::Other(c) => ParseState {
                stack: st.stack.update(k, top.push(Node::Comment(c))),
                err: st.err,
            },
            Token::LoopStart => ParseState {
                stack: st.stack.push(Seq::<Node>::empty()),
                err: st.err,
            },
            Token::LoopEnd => if st.stack.len() == 1 {
                ParseState { stack: st.stack, err: Some(ParseError::UnmatchedCloser) }
            } else {
                ParseState {
                    stack: st.stack.drop_last().update(k - 1, st.stack[k - 1].push(Node::Loop(top))),
                    err: st.err,
                }
            },
        }
    }
}

/// The parse state after consuming a whole token stream, left to right.
pub open spec fn parse_fold(toks: Seq<Token>) -> ParseState
    decreases toks.len(),
{
    if toks.len() == 0 {
        init_state()
    } else {
        parse_step(parse_fold(toks.drop_last()), toks.last())
    }
}

/// What parsing a source text yields: the finished tree, or the first
/// fatal unbalanced-delimiter error.
pub open spec fn parse_spec(s: Seq<char>) -> Result<Seq<Node>, ParseError> {
    let st = parse_fold(tokens_of(s));
    if st.err is Some {
        Err(st.err->0)
    } else if st.stack.len() != 1 {
        Err(ParseError::UnmatchedOpener)
    } else {
        Ok(st.stack[0])
    }
}

/// The input characters a lexer has not yet consumed.
pub open spec fn remaining(lex: Lexer) -> Seq<char> {
    if lex.position <= lex.input@.len() {
        lex.input@.skip(lex.position as int)
    } else {
        Seq::<char>::empty()
    }
}

/// Folding one more token is one step on the fold of the prefix.
pub proof fn lemma_fold_snoc(toks: Seq<Token>, i: int)
    requires
        0 <= i < toks.len(),
    ensures
        parse_fold(toks.take(i + 1)) == parse_step(parse_fold(toks.take(i)), toks[i]),
{
    assert(toks.take(i + 1).drop_last() =~= toks.take(i));
    assert(toks.take(i + 1).last() == toks[i]);
}

/// A fatal error, once met, is what the whole fold reports.
pub proof fn lemma_fold_err_sticky(toks: Seq<Token>, i: int)
    requires
        0 <= i <= toks.len(),
        parse_fold(toks.take(i)).err is Some,
    ensures
        parse_fold(toks).err == parse_fold(toks.take(i)).err,
        parse_fold(toks).stack == parse_fold(toks.take(i)).stack,
    decreases toks.len() - i,
{
    if i == toks.len() {
        assert(toks.take(i) =~= toks);
    } else {
        lemma_fold_snoc(toks, i);
        lemma_fold_err_sticky(toks, i + 1);
    }
}

pub proof fn lemma_view_nodes_push(s: Seq<ASTNode>, x: ASTNode)
    ensures
        view_nodes(s.push(x)) == view_nodes(s).push(view_node(x)),
{
    assert(view_nodes(s.push(x)) =~= view_nodes(s).push(view_node(x)));
}

pub proof fn lemma_view_nodes_update(s: Seq<ASTNode>, i: int, x: ASTNode)
    requires
        0 <= i < s.len(),
    ensures
        view_nodes(s.update(i, x)) == view_nodes(s).update(i, view_node(x)),
{
    assert(view_nodes(s.update(i, x)) =~= view_nodes(s).update(i, view_node(x)));
}

/// The abstraction of a stack of open node sequences.
pub open spec fn view_stack(s: Seq<Vec<ASTNode>>) -> Seq<Seq<Node>> {
    Seq::new(s.len(), |i: int| view_nodes(s[i]@))
}

pub struct Parser {
    pub lexer: Lexer,
    pub loop_count: usize,
}

fn push_incr(top: &mut Vec<ASTNode>)
    ensures
        view_nodes(final(top)@) == append_incr(view_nodes(old(top)@)),
{
    let mut merged: Option<u8> = None;
    if top.len() > 0 {
        match &top[top.len() - 1] {
            ASTNode::Incr(c) => {
                if *c < 255 {
                    merged = Some(*c + 1);
                }
            },
            _ => {},
        }
    }
    match merged {
        Some(c) => {
            let j = top.len() - 1;
            top[j] = ASTNode::Incr(c);
            proof {
                lemma_view_nodes_update(old(top)@, j as int, ASTNode::Incr(c));
            }
        },
        None => {
            top.push(ASTNode::Incr(1));
            proof {
                lemma_view_nodes_push(old(top)@, ASTNode::Incr(1));
            }
        },
    }
}

fn push_decr(top: &mut Vec<ASTNode>)
    ensures
        view_nodes(final(top)@) == append_decr(view_nodes(old(top)@)),
{
    let mut merged: Option<u8> = None;
    if top.len() > 0 {
        match &top[top.len() - 1] {
            ASTNode::Decr(c) => {
                if *c < 255 {
                    merged = Some(*c + 1);
                }
            },
            _ => {},
        }
    }
    match merged {
        Some(c) => {
            let j = top.len() - 1;
            top[j] = ASTNode::Decr(c);
            proof {
                lemma_view_nodes_update(old(top)@, j as int, ASTNode::Decr(c));
            }
        },
        None => {
            top.push(ASTNode::Decr(1));
            proof {
                lemma_view_nodes_push(old(top)@, ASTNode::Decr(1));
            }
        },
    }
}

fn push_next(top: &mut Vec<ASTNode>)
    ensures
        view_nodes(final(top)@) == append_next(view_nodes(old(top)@)),
{
    let mut merged: Option<usize> = None;
    if top.len() > 0 {
        match &top[top.len() - 1] {
            ASTNode::Next(c) => {
                if *c < usize::MAX {
                    merged = Some(*c + 1);
                }
            },
            _ => {},
        }
    }
    match merged {
        Some(c) => {
            let j = top.len() - 1;
            top[j] = ASTNode::Next(c);
            proof {
                lemma_view_nodes_update(old(top)@, j as int, ASTNode::Next(c));
            }
        },
        None => {
            top.push(ASTNode::Next(1));
            proof {
                lemma_view_nodes_push(old(top)@, ASTNode::Next(1));
            }
        },
    }
}

fn push_prev(top: &mut Vec<ASTNode>)
    ensures
        view_nodes(final(top)@) == append_prev(view_nodes(old(top)@)),
{
    let mut merged: Option<usize> = None;
    if top.len() > 0 {
        match &top[top.len() - 1] {
            ASTNode::Prev(c) => {
                if *c < usize::MAX {
                    merged = Some(*c + 1);
                }
            },
            _ => {},
        }
    }
    match merged {
        Some(c) => {
            let j = top.len() - 1;
            top[j] = ASTNode::Prev(c);
            proof {
                lemma_view_nodes_update(old(top)@, j as int, ASTNode::Prev(c));
            }
        },
        None => {
            top.push(ASTNode::Prev(1));
            proof {
                lemma_view_nodes_push(old(top)@, ASTNode::Prev(1));
            }
        },
    }
}

impl Parser {
    pub fn new(lexer: Lexer) -> (r: Parser)
        ensures
            r.lexer == lexer,
            r.loop_count == 0,
    {
        Parser { lexer, loop_count: 0 }
    }

    /// Builds the tree for the source text the lexer has not yet consumed,
    /// or reports the first fatal unbalanced-delimiter error.
    pub fn parse(&mut self) -> (r: Result<AbstractSyntaxTree, ParseError>)
        requires
            old(self).loop_count == 0,
            old(self).lexer.position <= old(self).lexer.input@.len(),
        ensures
            final(self).lexer.input@ == old(self).lexer.input@,
            match r {
                Ok(tree) => parse_spec(remaining(old(self).lexer)) == Ok::<Seq<Node>, ParseError>(
                    view_nodes(tree.data@),
                ),
                Err(e) => parse_spec(remaining(old(self).lexer)) == Err::<Seq<Node>, ParseError>(e),
            },
            r is Ok ==> final(self).loop_count == 0 && final(self).lexer.position
                == old(self).lexer.input@.len(),
    {
        self.parse_helper()
    }

    pub fn parse_helper(&mut self) -> (r: Result<AbstractSyntaxTree, ParseError>)
        requires
            old(self).loop_count == 0,
            old(self).lexer.position <= old(self).lexer.input@.len(),
        ensures
            final(self).lexer.input@ == old(self).lexer.input@,
            match r {
                Ok(tree) => parse_spec(remaining(old(self).lexer)) == Ok::<Seq<Node>, ParseError>(
                    view_nodes(tree.data@),
                ),
                Err(e) => parse_spec(remaining(old(self).lexer)) == Err::<Seq<Node>, ParseError>(e),
            },
            r is Ok ==> final(self).loop_count == 0 && final(self).lexer.position
                == old(self).lexer.input@.len(),
    {
        let ghost toks = tokens_of(remaining(old(self).lexer));
        let ghost pos0 = old(self).lexer.position as int;
        let n = self.lexer.input.as_str().unicode_len();
        let mut stack: Vec<Vec<ASTNode>> = Vec::new();
        stack.push(Vec::new());
        proof {
            assert(toks.take(0) =~= Seq::<Token>::empty());
            assert(view_stack(stack@) =~~= init_state().stack);
        }

        while self.lexer.position < n
            invariant
                n == self.lexer.input@.len(),
                self.lexer.input@ == old(self).lexer.input@,
                pos0 == old(self).lexer.position as int,
                pos0 <= self.lexer.position as int <= n,
                toks == tokens_of(remaining(old(self).lexer)),
                toks.len() == n - pos0,
                stack@.len() >= 1,
                self.loop_count == stack@.len() - 1,
                parse_fold(toks.take(self.lexer.position - pos0)) == (ParseState {
                    stack: view_stack(stack@),
                    err: None,
                }),
            decreases n - self.lexer.position,
        {
            let ghost i = self.lexer.position - pos0;
            let ghost st0 = parse_fold(toks.take(i));
            let t = self.lexer.next_token();
            let token = t.unwrap();
            proof {
                assert(remaining(old(self).lexer)[i] == self.lexer.input@[pos0 + i]);
                assert(toks[i] == token);
                lemma_fold_snoc(toks, i);
            }
            let ghost st1 = parse_step(st0, token);

            match token {
                Token::Incr => {
                    let mut top = stack.pop().unwrap();
                    push_incr(&mut top);
                    stack.push(top);
                    proof {
                        assert(view_stack(stack@) =~~= st1.stack);
                    }
                },
                Token::Decr => {
                    let mut top = stack.pop().unwrap();
                    push_decr(&mut top);
                    stack.push(top);
                    proof {
                        assert(view_stack(stack@) =~~= st1.stack);
                    }
                },
                Token::Next => {
                    let mut top = stack.pop().unwrap();
                    push_next(&mut top);
                    stack.push(top);
                    proof {
                        assert(view_stack(stack@) =~~= st1.stack);
                    }
                },
                Token::Prev => {
                    let mut top = stack.pop().unwrap();
                    push_prev(&mut top);
                    stack.push(top);
                    proof {
                        assert(view_stack(stack@) =~~= st1.stack);
                    }
                },
                Token::Input => {
                    let mut top = stack.pop().unwrap();
                    top.push(ASTNode::Input);
                    stack.push(top);
                    proof {
                        lemma_view_nodes_push(stack@.last()@.drop_last(), ASTNode::Input);
                        assert(view_stack(stack@) =~~= st1.stack);
                    }
                },
                Token::Output => {
                    let mut top = stack.pop().unwrap();
                    top.push(ASTNode::Output);
                    stack.push(top);
                    proof {
                        lemma_view_nodes_push(stack@.last()@.drop_last(), ASTNode::Output);
                        assert(view_stack(stack@) =~~= st1.stack);
                    }
                },
                Token::Other(c) => {
                    let mut top = stack.pop().unwrap();
                    top.push(ASTNode::Comment(c));
                    stack.push(top);
                    proof {
                        lemma_view_nodes_push(stack@.last()@.drop_last(), ASTNode::Comment(c));
                        assert(view_stack(stack@) =~~= st1.stack);
                    }
                },
                Token::LoopStart => {
                    stack.push(Vec::new());
                    self.loop_count = stack.len() - 1;
                    proof {
                        assert(view_stack(stack@) =~~= st1.stack);
                    }
                },
                Token::LoopEnd => {
                    if stack.len() == 1 {
                        proof {
                            lemma_fold_err_sticky(toks, i + 1);
                        }
                        return Err(ParseError::UnmatchedCloser);
                    }
                    let top = stack.pop().unwrap();
                    let mut parent = stack.pop().unwrap();
                    parent.push(ASTNode::Loop(top));
                    stack.push(parent);
                    self.loop_count = stack.len() - 1;
                    proof {
                        lemma_view_nodes_push(
                            stack@.last()@.drop_last(),
                            ASTNode::Loop(stack@.last()@.last()->Loop_0),
                        );
                        assert(view_stack(stack@) =~~= st1.stack);
                    }
                },
            }
        }

        proof {
            assert(toks.take(self.lexer.position - pos0) =~= toks);
        }
        if stack.len() > 1 {
            return Err(ParseError::UnmatchedOpener);
        }
        let data = stack.pop().unwrap();
        Ok(AbstractSyntaxTree { data })
    }
}

} // verus!
