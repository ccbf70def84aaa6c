//! A small expression language: integers, `+` and `-`, and parentheses.
//!
//! A source text is parsed into the trees of its top-level expressions
//! ([`parser::parse`]), and a program denotes the sum of what its trees
//! denote ([`Interpreter`]). [`grammar`] states the language itself.
use vstd::prelude::*;
use vstd::string::*;

pub mod ascii;
pub mod ast;
pub mod compiler;
pub mod grammar;
pub mod parser;
pub mod theorems;

pub use crate::ast::{Node, Operator};
pub use crate::compiler::interpreter::{Eval, Interpreter};
pub use crate::grammar::SyntaxError;
pub use crate::parser::ParseError;

use crate::grammar::program;

verus! {

/// A back end of the language: it turns the trees of a program into an output.
pub trait Compile {
    type Output;

    /// The output for the trees of a program.
    spec fn compiled(ast: Seq<Node>) -> Self::Output;

    /// Turns the trees of a program into the output.
    fn from_ast(ast: Vec<Node>) -> (output: Self::Output)
        ensures
            output == Self::compiled(ast@),
    ;

    /// Parses `source` and hands its trees to `from_ast`. A text that is not
    /// a program yields the parse error and nothing else.
    fn from_source(source: &str) -> (output: Result<Self::Output, ParseError>)
        ensures
            match output {
                Ok(o) => program(source.spec_bytes()) matches Ok(ast) && o == Self::compiled(ast),
                Err(e) => program(source.spec_bytes()) matches Err(m) && e.reports(
                    source.spec_bytes(),
                    m,
                ),
            },
    {
        match crate::parser::parse(source) {
            Ok(ast) => Ok(Self::from_ast(ast)),
            Err(e) => Err(e),
        }
    }
}

} // verus!
