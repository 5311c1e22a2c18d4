//! Tokenizer: classifies each character of the source text into one of the
//! eight operator tokens, or an `Other` token carrying the character verbatim.

use vstd::prelude::*;
use vstd::string::StrSliceExecFns;

verus! {

#[derive(Debug, PartialEq, Eq, Structural, Clone, Copy)]
pub enum Token {
    Incr,
    Decr,
    Next,
    Prev,
    LoopStart,
    LoopEnd,
    Input,
    Output,
    Other(char),
}

/// The token class of a single source character.
pub open spec fn classify(c: char) -> Token {
    if c == '+' {
        Token::Incr
    } else if c == '-' {
        Token::Decr
    } else if c == '>' {
        Token::Next
    } else if c == '<' {
        Token::Prev
    } else if c == '[' {
        Token::LoopStart
    } else if c == ']' {
        Token::LoopEnd
    } else if c == ',' {
        Token::Input
    } else if c == '.' {
        Token::Output
    } else {
        Token::Other(c)
    }
}

/// The token stream of a whole source text: one token per character.
pub open spec fn tokens_of(s: Seq<char>) -> Seq<Token> {
    s.map_values(|c: char| classify(c))
}

/// The token delivered at read position `i`, or `None` once the input is
/// exhausted.
pub open spec fn token_at(s: Seq<char>, i: int) -> Option<Token> {
    if 0 <= i < s.len() {
        Some(classify(s[i]))
    } else {
        None
    }
}

pub struct Lexer {
    pub input: String,
    pub position: usize,
}

impl Lexer {
    pub fn new(input: String) -> (r: Lexer)
        ensures
            r.input@ == input@,
            r.position == 0,
    {
        Lexer { input, position: 0 }
    }

    /// Returns the token at the current read position without advancing.
    pub fn peek_token(&self) -> (t: Option<Token>)
        ensures
            t == token_at(self.input@, self.position as int),
    {
        if self.position >= self.input.as_str().unicode_len() {
            return None;
        }

        let current_char = self.input.as_str().get_char(self.position);

        match current_char {
            '+' => Some(Token::Incr),
            '-' => Some(Token::Decr),
            '>' => Some(Token::Next),
            '<' => Some(Token::Prev),
            '[' => Some(Token::LoopStart),
            ']' => Some(Token::LoopEnd),
            ',' => Some(Token::Input),
            '.' => Some(Token::Output),
            _ => Some(Token::Other(current_char)),
        }
    }

    /// Returns the token at the current read position and advances past it.
    pub fn next_token(&mut self) -> (t: Option<Token>)
        ensures
            t == token_at(old(self).input@, old(self).position as int),
            final(self).input@ == old(self).input@,
            t is Some ==> final(self).position == old(self).position + 1,
            t is None ==> final(self).position == old(self).position,
    {
        if self.position >= self.input.as_str().unicode_len() {
            return None;
        }

        let current_char = self.input.as_str().get_char(self.position);
        self.position = self.position + 1;

        match current_char {
            '+' => Some(Token::Incr),
            '-' => Some(Token::Decr),
            '>' => Some(Token::Next),
            '<' => Some(Token::Prev),
            '[' => Some(Token::LoopStart),
            ']' => Some(Token::LoopEnd),
            ',' => Some(Token::Input),
            '.' => Some(Token::Output),
            _ => Some(Token::Other(current_char)),
        }
    }
}

} // verus!
