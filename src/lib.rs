mod compiler;
mod executor;
mod laws;
mod operation;
mod unique;

pub use compiler::{is_run_command, parse_source, run_node};
pub use executor::{
    current, initial_tape, run_loop, run_op, run_seq, store, InputSource, Program, Tape,
    MEMORY_SIZE,
};
pub use laws::{neighbours_never_form_one_run, single_run_is_one_node, zero_guard_skips_loop};
pub use unique::{
    compiled_tree_is_unique, lemma_render_balanced, lemma_same_ops_run, only_balanced_sources_compile,
    same_op, same_ops,
};
pub use operation::{
    balanced, code_of, compiles_to, folded, folded_op, is_command, nesting, render, render_op,
    repeat, same_run, underflows, InterpreterError, Operation,
};

use vstd::prelude::*;

use unique::lemma_unique;

verus! {

/// How many times `interpret` lets a loop run its body; far more than any
/// program can get through.
pub const LOOP_BUDGET: u64 = 0xffff_ffff_ffff_ffff;

/// Relies on String's FromIterator<char>: the string holds the characters in order.
#[verifier::external_body]
fn string_from(cs: &Vec<char>) -> (r: String)
    ensures
        r@ == cs@,
{
    cs.iter().collect()
}

/// What a run that ends in `t` hands back: its output.
pub open spec fn printed(r: Result<Tape, InterpreterError>) -> Result<Seq<char>, InterpreterError> {
    match r {
        Ok(t) => Ok(t.out),
        Err(e) => Err(e),
    }
}

/// The tree that `s` compiles to. Any two trees that `s` compiles to are
/// alike (`compiled_tree_is_unique`) and run alike (`lemma_same_ops_run`).
pub open spec fn compiled(s: Seq<char>) -> Seq<Operation> {
    choose|ops: Seq<Operation>| compiles_to(s, ops)
}

/// Compiles `source` and runs it on a fresh tape, reading from `input`;
/// returns everything the program printed.
pub fn interpret(source: &str, input: InputSource) -> (r: Result<String, InterpreterError>)
    ensures
        underflows(source@) ==> (r matches Err(InterpreterError::ParseError(m)) && m@
            == "Unexpected end of loop"@),
        !underflows(source@) && nesting(source@) != 0 ==> (r matches Err(
            InterpreterError::ParseError(m),
        ) && m@ == "Expected end of loop"@),
        balanced(source@) ==> compiles_to(source@, compiled(source@)) && printed(
            run_seq(compiled(source@), initial_tape(), input, LOOP_BUDGET as nat),
        ) == match r {
            Ok(s) => Ok::<Seq<char>, InterpreterError>(s@),
            Err(e) => Err(e),
        },
{
    let operations = match parse_source(source) {
        Ok(ops) => ops,
        Err(e) => {
            return Err(e);
        },
    };
    proof {
        let ops = operations@;
        assert(compiles_to(source@, ops));
        let c = compiled(source@);
        lemma_unique(ops, c);
        lemma_same_ops_run(ops, c, initial_tape(), input, LOOP_BUDGET as nat);
    }
    let program = Program::new(input);
    match program.execute(&operations, LOOP_BUDGET) {
        Ok(out) => Ok(string_from(&out)),
        Err(e) => Err(e),
    }
}

}
