use vstd::prelude::*;

use crate::compiler::{is_run_command, run_node};
use crate::executor::{current, run_op, InputSource, Tape};
use crate::operation::{
    code_of, compiles_to, folded, folded_op, is_command, render, render_op, repeat, same_run,
    Operation,
};

verus! {

broadcast use vstd::std_specs::vec::axiom_vec_decreases_to_view, vstd::seq::axiom_seq_subrange_decreases,
    vstd::seq::axiom_seq_index_decreases;

/// A loop whose guard cell is zero on entry does nothing: its body never
/// runs and the state is left as it was.
pub proof fn zero_guard_skips_loop(body: Vec<Operation>, t: Tape, input: InputSource, fuel: nat)
    requires
        current(t) == 0,
    ensures
        run_op(Operation::Loop(body), t, input, fuel) == Ok::<Tape, crate::operation::InterpreterError>(t),
{
}

/// The last character that a well-formed node stands for; every such node
/// stands for at least one character.
pub proof fn lemma_render_op_last(op: Operation)
    requires
        folded_op(op),
    ensures
        render_op(op).len() > 0,
        render_op(op).last() == (match op {
            Operation::MoveRight(_) => '>',
            Operation::MoveLeft(_) => '<',
            Operation::Increment(_) => '+',
            Operation::Decrement(_) => '-',
            Operation::Output => '.',
            Operation::Input => ',',
            Operation::Loop(_) => ']',
        }),
{
}

/// A non-empty folded sequence stands for a non-empty text, which ends as its
/// last node does.
pub proof fn lemma_render_last(ops: Seq<Operation>)
    requires
        folded(ops),
        ops.len() > 0,
    ensures
        render(ops).len() > 0,
        render(ops).last() == render_op(ops.last()).last(),
{
    lemma_render_op_last(ops.last());
}

/// In a compiled sequence no two neighbours could be folded into one node,
/// and every run carries a positive count.
pub proof fn neighbours_never_form_one_run(s: Seq<char>, ops: Seq<Operation>)
    requires
        compiles_to(s, ops),
    ensures
        forall|i: int| 0 <= i < ops.len() ==> folded_op(#[trigger] ops[i]),
        forall|i: int| 0 <= i < ops.len() - 1 ==> !same_run(#[trigger] ops[i], ops[i + 1]),
{
    lemma_folded_neighbours(ops);
}

proof fn lemma_folded_neighbours(ops: Seq<Operation>)
    requires
        folded(ops),
    ensures
        forall|i: int| 0 <= i < ops.len() ==> folded_op(#[trigger] ops[i]),
        forall|i: int| 0 <= i < ops.len() - 1 ==> !same_run(#[trigger] ops[i], ops[i + 1]),
    decreases ops.len(),
{
    if ops.len() > 0 {
        lemma_folded_neighbours(ops.drop_last());
        assert forall|i: int| 0 <= i < ops.len() implies folded_op(#[trigger] ops[i]) by {
            if i < ops.len() - 1 {
                assert(ops[i] == ops.drop_last()[i]);
            }
        }
        assert forall|i: int| 0 <= i < ops.len() - 1 implies !same_run(
            #[trigger] ops[i],
            ops[i + 1],
        ) by {
            if i < ops.len() - 2 {
                assert(ops[i] == ops.drop_last()[i]);
                assert(ops[i + 1] == ops.drop_last()[i + 1]);
            }
        }
    }
}

proof fn lemma_code_of_commands(c: char, k: nat)
    requires
        is_command(c),
    ensures
        code_of(repeat(c, k)) == repeat(c, k),
    decreases k,
{
    if k > 0 {
        assert(repeat(c, k).drop_last() =~= repeat(c, (k - 1) as nat));
        lemma_code_of_commands(c, (k - 1) as nat);
        assert(repeat(c, (k - 1) as nat).push(c) =~= repeat(c, k));
    }
}

/// A source made of one run of `k` identical move or cell commands compiles
/// to exactly one node, which carries the count `k`.
pub proof fn single_run_is_one_node(c: char, k: usize, ops: Seq<Operation>)
    requires
        is_run_command(c),
        k >= 1,
        compiles_to(repeat(c, k as nat), ops),
    ensures
        ops == seq![run_node(c, k)],
{
    let t = repeat(c, k as nat);
    lemma_code_of_commands(c, k as nat);
    assert(render(ops) == t);
    if ops.len() == 0 {
        assert(render(ops).len() == 0);
        assert(false);
    }
    let rest = ops.drop_last();
    let last = ops.last();
    lemma_render_op_last(last);
    assert(render(ops) == render(rest) + render_op(last));
    assert(render_op(last).last() == t[t.len() - 1]);
    let n: usize = match last {
        Operation::MoveRight(n) => n,
        Operation::MoveLeft(n) => n,
        Operation::Increment(n) => n,
        Operation::Decrement(n) => n,
        _ => 0,
    };
    assert(last == run_node(c, n));
    assert(render_op(last) == repeat(c, n as nat));
    if rest.len() > 0 {
        lemma_render_last(rest);
        lemma_render_op_last(rest.last());
        assert(render(rest).last() == t[render(rest).len() - 1]);
        assert(render_op(rest.last()).last() == c);
        assert(same_run(rest.last(), last));
        assert(ops[ops.len() - 2] == rest.last());
        assert(false);
    }
    assert(render(rest).len() == 0);
    assert(ops =~= seq![run_node(c, k)]);
}

}
