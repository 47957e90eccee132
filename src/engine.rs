//! The matching pipeline: parser, code generator and evaluator.
use vstd::prelude::*;

pub mod codegen;
pub mod evaluator;
pub mod parser;
pub mod theorems;

use codegen::{gen_code, program, size, CodeGenError};
use evaluator::{eval, eval_spec, EvalError};
use parser::{chars_of, parse, parse_spec, ParseError};

verus! {

/// An instruction of the matching machine. Addresses are indices into the
/// program.
#[derive(Debug, Clone, Copy, PartialEq, Eq)]
pub enum Instruction {
    /// Consumes one input character equal to the operand (`.` takes any).
    Char(char),
    /// Ends the attempt with success.
    Match,
    Jump(usize),
    /// Tries the first address, then the second.
    Split(usize, usize),
    /// Holds only at the start of a line.
    MatchBegin,
    /// Holds only at the end of a line.
    MatchEnd,
}

/// Why a matching could not be decided.
#[derive(Debug, Clone, Copy, PartialEq, Eq)]
pub enum EngineError {
    Parse(ParseError),
    CodeGen(CodeGenError),
    Eval(EvalError),
}

/// The outcome of matching pattern `expr` against `line`: the pattern is
/// parsed, compiled and run, and the first failure among these is reported.
pub open spec fn matching(expr: Seq<char>, line: Seq<char>, is_depth: bool) -> Result<bool, EngineError> {
    match parse_spec(expr) {
        Err(e) => Err(EngineError::Parse(e)),
        Ok(t) => {
            if size(t) + 1 > usize::MAX {
                Err(EngineError::CodeGen(CodeGenError::PCOverFlow))
            } else {
                match eval_spec(program(t), line, is_depth) {
                    Ok(b) => Ok(b),
                    Err(e) => Err(EngineError::Eval(e)),
                }
            }
        },
    }
}

/// Matches the pattern `expr` against the whole of `line` from its start:
/// depth first where `is_depth` holds, else breadth first. `Ok(true)` is a
/// match, `Ok(false)` none; an error in the pattern or in the run is `Err`.
pub fn do_matching(expr: &str, line: &str, is_depth: bool) -> (r: Result<bool, EngineError>)
    ensures
        r == matching(expr@, line@, is_depth),
{
    let ast = match parse(expr) {
        Ok(a) => a,
        Err(e) => return Err(EngineError::Parse(e)),
    };
    let code = match gen_code(&ast) {
        Ok(c) => c,
        Err(e) => return Err(EngineError::CodeGen(e)),
    };
    let line = chars_of(line);
    match eval(code.as_slice(), line.as_slice(), is_depth) {
        Ok(b) => Ok(b),
        Err(e) => Err(EngineError::Eval(e)),
    }
}

/// The text that introduces a pattern in a listing.
pub open spec fn describe_prefix() -> Seq<char> {
    seq!['e', 'x', 'p', 'r', ':', ' ']
}

/// The pattern as it is shown to a user: `expr: ` followed by the pattern.
pub fn describe(expr: &str) -> (r: String)
    ensures
        r@ == describe_prefix() + expr@,
{
    let mut s = String::from_str("expr: ");
    proof {
        reveal_strlit("expr: ");
    }
    assert(s@ =~= describe_prefix());
    s.append(expr);
    s
}

} // verus!
