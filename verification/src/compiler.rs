//! The whole way from source text to assembly text: scan, parse, generate,
//! emit.

use vstd::prelude::*;
use crate::ir::{MiniDecafIRGenerator, assembly_text, program_ir, to_assembly, unary_ir, MiniDecafIR};
use crate::lexer::{ScanError, Scanner, scan};
use crate::parser::{MiniDecafParser, ParserError, parse};

verus! {

/// Why a text could not be compiled.
#[derive(Debug, PartialEq, Eq)]
pub enum CompileError {
    /// The text could not be scanned.
    Scan(ScanError),
    /// The tokens are no program.
    Parse(ParserError),
}

impl CompileError {
    /// The description of the error.
    pub open spec fn message_text(&self) -> Seq<char> {
        match self {
            CompileError::Scan(e) => e.message_text(),
            CompileError::Parse(e) => e.message_text(),
        }
    }

    /// Describes the error.
    pub fn message(&self) -> (text: String)
        ensures
            text@ == self.message_text(),
    {
        match self {
            CompileError::Scan(e) => e.message(),
            CompileError::Parse(e) => e.message(),
        }
    }
}

/// The assembly text of the program that `source` holds, or the error of
/// the first stage that fails.
pub open spec fn compiled(source: Seq<char>) -> Result<Seq<char>, CompileError> {
    match scan(source) {
        Err(e) => Err(CompileError::Scan(e)),
        Ok(tokens) => match parse(tokens) {
            Err(e) => Err(CompileError::Parse(e)),
            Ok(function) => Ok(
                assembly_text(unary_ir(function.stmt.expr.unary).push(MiniDecafIR::Ret)),
            ),
        },
    }
}

/// Compiles `source` to assembly text.
pub fn compile(source: String) -> (res: Result<String, CompileError>)
    ensures
        match compiled(source@) {
            Ok(text) => res is Ok && res->Ok_0@ == text,
            Err(e) => res == Err::<String, CompileError>(e),
        },
{
    let mut scanner = Scanner::new(source);
    assert(scanner.remaining() =~= source@);
    let tokens = match scanner.to_tokens() {
        Ok(tokens) => tokens,
        Err(e) => {
            return Err(CompileError::Scan(e));
        },
    };
    let mut parser = MiniDecafParser::new(tokens);
    let program = match parser.parse_program() {
        Ok(program) => program,
        Err(e) => {
            return Err(CompileError::Parse(e));
        },
    };
    let ir = MiniDecafIRGenerator::new().to_ir(&program);
    assert(ir@ =~= program_ir(program));
    Ok(to_assembly(&ir))
}

} // verus!
