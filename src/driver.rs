use vstd::prelude::*;
use crate::ast::AstNode;
use crate::exec::{execute, initial, run, Status};
use crate::ir::Function;
use crate::lower::{compile_program, lower_error, supported, LowerError};
use crate::sem::program_runs;
use crate::parser::{parse_string, stmt_ok, ParseError};
use crate::tables::{alloc_node, intern_node};

verus! {

/// Why a program could not be run.
#[derive(Clone, Copy, Debug, PartialEq, Eq, Structural)]
pub enum RunError {
    Parse(ParseError),
    Lower(LowerError),
}

/// Whether `p` can be lowered with its own slot and data tables.
pub open spec fn lowerable(p: AstNode) -> bool {
    supported(p, alloc_node(Seq::empty(), p), intern_node(Seq::empty(), p))
}

/// Parses, lowers and runs a program, entering at most `fuel` blocks;
/// returns how the run ended and what it wrote, which is what running the
/// parsed program gives (`program_runs`).
pub fn run_program(input: &str, fuel: u64) -> (r: Result<(Status, Vec<u8>), RunError>)
    ensures
        match r {
            Ok((status, out)) => exists|p: AstNode, f: Function| {
                &&& stmt_ok(p)
                &&& lowerable(p)
                &&& f.wf()
                &&& crate::tables::data_view(f.data@) == intern_node(Seq::empty(), p)
                &&& (status, out@) == run(f, 0, initial(f), fuel as nat)
                &&& (intern_node(Seq::empty(), p).len() < 0x1_0000_0000 ==> forall|k: nat| #[trigger]
                    program_runs(f, p, alloc_node(Seq::empty(), p), intern_node(Seq::empty(), p), k))
            },
            Err(RunError::Parse(e)) => e.offset <= input@.len(),
            Err(RunError::Lower(e)) => exists|p: AstNode| stmt_ok(p) && (e != LowerError::TooLarge
                ==> lower_error(p, alloc_node(Seq::empty(), p), intern_node(Seq::empty(), p)) == Some(e)),
        },
{
    let program = match parse_string(input) {
        Ok(p) => p,
        Err(e) => {
            return Err(RunError::Parse(e));
        },
    };
    let f = match compile_program(&program) {
        Ok(f) => f,
        Err(e) => {
            return Err(RunError::Lower(e));
        },
    };
    Ok(execute(&f, fuel))
}

} // verus!
