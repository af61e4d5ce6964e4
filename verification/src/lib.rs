//! An optimizing middle-end and execution engine for a minimal tape-machine
//! language: one data pointer, a circular byte tape, and a single looping
//! construct.  Programs parse into an instruction tree, a pipeline of
//! semantics-preserving tree-rewrite passes fuses and specializes
//! instructions, and a tree-walking interpreter executes the result against
//! mutable tape state with wraparound addressing and byte-level I/O.
//!
//! Execution of a program of this language may legitimately never halt, and
//! every function here terminates, so the entry points take a step budget
//! and report `None` when it runs out; any run that completes within its
//! budget is pinned exactly by the `semantics::run_steps` model.

pub mod analyzer;
pub mod equiv;
pub mod optimizer;
pub mod parser;
pub mod rewrites;
pub mod semantics;
pub mod vm;

use vstd::prelude::*;

use crate::optimizer::default_options;
use crate::optimizer::optimize_code;
use crate::optimizer::spec_optimize;
use crate::optimizer::OptimizationOptions;
use crate::parser::parse_code;
use crate::parser::spec_parse;
use crate::parser::ParserError;
use crate::semantics::init_cfg;
use crate::semantics::run_steps;
use crate::semantics::Outcome;
use crate::vm::machine_of;
use crate::vm::run_block;
use crate::vm::InputSource;
use crate::vm::RuntimeError;
use crate::vm::State;

verus! {

#[derive(Debug, PartialEq)]
pub enum ExecutionError {
    Parse(ParserError),
    Run(RuntimeError),
}

/// Parse `code`, optimize it with every pass enabled, and execute the result
/// against `s` for at most `budget` machine steps.  A parse error comes back
/// before anything runs and leaves the state untouched; `None` means the
/// budget ran out mid-run, with the state exactly where the model leaves it.
pub fn run_code(
    code: &Vec<u8>,
    stdin: &mut InputSource,
    stdout: &mut Vec<u8>,
    s: &mut State,
    budget: u64,
) -> (r: Option<Result<(), ExecutionError>>)
    requires
        old(s).wf(),
        old(stdin).wf(),
    ensures
        final(s).wf(),
        final(stdin).wf(),
        ({
            match spec_parse(code@) {
                Err(pe) => {
                    &&& r == Some(Err::<(), ExecutionError>(ExecutionError::Parse(pe)))
                    &&& *final(s) == *old(s)
                    &&& *final(stdin) == *old(stdin)
                    &&& final(stdout)@ == old(stdout)@
                },
                Ok(tree) => {
                    let o = run_steps(
                        init_cfg(
                            spec_optimize(tree, default_options()),
                            machine_of(*old(s), old(stdin).remaining(), old(stdout)@),
                        ),
                        budget as nat,
                    );
                    let fin = machine_of(*final(s), final(stdin).remaining(), final(stdout)@);
                    match r {
                        Some(res) => match res {
                            Ok(_) => o == Outcome::Done(fin),
                            Err(e) => {
                                &&& e matches ExecutionError::Run(re) && re is ReadError
                                &&& o == Outcome::Failed(fin)
                            },
                        },
                        None => o is Exhausted && o->Exhausted_0.m == fin,
                    }
                },
            }
        }),
{
    let parsed = match parse_code(code) {
        Ok(p) => p,
        Err(e) => {
            return Some(Err(ExecutionError::Parse(e)));
        }
    };
    let optimized = optimize_code(&parsed, &OptimizationOptions::default());
    match run_block(stdin, stdout, &optimized, s, budget) {
        None => None,
        Some(res) => match res {
            Ok(_) => Some(Ok(())),
            Err(e) => Some(Err(ExecutionError::Run(e))),
        },
    }
}

} // verus!
