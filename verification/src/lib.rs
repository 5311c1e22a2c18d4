pub mod agreement;
pub mod cli;
pub mod compiler;
pub mod eval;
pub mod interpreter;
pub mod laws;
pub mod lexer;
pub mod optimizer;
pub mod parser;
pub mod preserve;
pub mod util;
