use vstd::prelude::*;
use vstd::string::StringExecFns;

use crate::operation::{
    balanced, code_of, compiles_to, folded, folded_op, nesting, render, render_op, repeat, same_run,
    underflows, InterpreterError, Operation,
};

verus! {

broadcast use vstd::std_specs::vec::axiom_vec_decreases_to_view, vstd::seq::axiom_seq_subrange_decreases,
    vstd::seq::axiom_seq_index_decreases;

/// Relies on str::chars: the characters of the string, in order.
#[verifier::external_body]
fn chars_of(s: &str) -> (r: Vec<char>)
    ensures
        r@ == s@,
{
    s.chars().collect()
}

/// A command that folding merges into runs.
pub open spec fn is_run_command(c: char) -> bool {
    c == '>' || c == '<' || c == '+' || c == '-'
}

/// The operation for a run of `n` copies of the command `c`.
pub open spec fn run_node(c: char, n: usize) -> Operation {
    if c == '>' {
        Operation::MoveRight(n)
    } else if c == '<' {
        Operation::MoveLeft(n)
    } else if c == '+' {
        Operation::Increment(n)
    } else {
        Operation::Decrement(n)
    }
}

/// The text of the loops still open while compiling: each enclosing
/// sequence built so far, followed by the `[` that left it.
pub open spec fn frames_text(fs: Seq<Vec<Operation>>) -> Seq<char>
    decreases fs.len(),
{
    if fs.len() == 0 {
        Seq::empty()
    } else {
        frames_text(fs.drop_last()) + render(fs.last()@) + seq!['[']
    }
}

pub(crate) proof fn lemma_code_len(s: Seq<char>)
    ensures
        code_of(s).len() <= s.len(),
    decreases s.len(),
{
    if s.len() > 0 {
        lemma_code_len(s.drop_last());
    }
}

pub(crate) proof fn lemma_render_run(c: char, n: usize)
    requires
        is_run_command(c),
    ensures
        render_op(run_node(c, n)) == repeat(c, n as nat),
        folded_op(run_node(c, n)) == (n >= 1),
{
}

fn make_run(c: char, n: usize) -> (r: Operation)
    requires
        is_run_command(c),
    ensures
        r == run_node(c, n),
{
    if c == '>' {
        Operation::MoveRight(n)
    } else if c == '<' {
        Operation::MoveLeft(n)
    } else if c == '+' {
        Operation::Increment(n)
    } else {
        Operation::Decrement(n)
    }
}

/// The count of `op` when it is a run of the command `c`.
fn run_count(op: &Operation, c: char) -> (r: Option<usize>)
    requires
        is_run_command(c),
    ensures
        r matches Some(k) ==> *op == run_node(c, k),
        r is None ==> !same_run(*op, run_node(c, 1)),
{
    match op {
        Operation::MoveRight(k) => if c == '>' { Some(*k) } else { None },
        Operation::MoveLeft(k) => if c == '<' { Some(*k) } else { None },
        Operation::Increment(k) => if c == '+' { Some(*k) } else { None },
        Operation::Decrement(k) => if c == '-' { Some(*k) } else { None },
        _ => None,
    }
}

/// Appends the command `c` to a folded sequence: it extends the last node
/// when that node is a run of `c`, and starts a run of one otherwise.
fn push_run(cur: &mut Vec<Operation>, c: char)
    requires
        is_run_command(c),
        folded(old(cur)@),
        render(old(cur)@).len() < usize::MAX,
    ensures
        folded(final(cur)@),
        render(final(cur)@) == render(old(cur)@).push(c),
{
    let n = cur.len();
    if n > 0 {
        if let Some(k) = run_count(&cur[n - 1], c) {
            proof {
                lemma_render_run(c, k);
                assert(render(cur@) == render(cur@.drop_last()) + repeat(c, k as nat));
            }
            cur.pop();
            let ghost before = cur@;
            cur.push(make_run(c, k + 1));
            proof {
                lemma_render_run(c, (k + 1) as usize);
                assert(cur@.drop_last() =~= before);
                assert(repeat(c, (k + 1) as nat) =~= repeat(c, k as nat).push(c));
                assert(render(cur@) =~= render(old(cur)@).push(c));
            }
            return;
        }
    }
    let ghost before = cur@;
    cur.push(make_run(c, 1));
    proof {
        lemma_render_run(c, 1);
        assert(cur@.drop_last() =~= before);
        assert(repeat(c, 1) =~= seq![c]);
    }
}

/// Compiles source text into a tree of operations. Characters other than the
/// eight commands are ignored, runs of one move or cell command fold into one
/// node, and each bracket pair becomes a loop.
pub fn parse_source(source: &str) -> (r: Result<Vec<Operation>, InterpreterError>)
    ensures
        r is Ok <==> balanced(source@),
        r matches Ok(ops) ==> compiles_to(source@, ops@),
        underflows(source@) ==> (r matches Err(InterpreterError::ParseError(m)) && m@
            == "Unexpected end of loop"@),
        !underflows(source@) && nesting(source@) != 0 ==> (r matches Err(
            InterpreterError::ParseError(m),
        ) && m@ == "Expected end of loop"@),
{
    let chars = chars_of(source);
    let ghost s = source@;
    let mut stack: Vec<Vec<Operation>> = Vec::new();
    let mut cur: Vec<Operation> = Vec::new();
    let mut i: usize = 0;
    assert(s.take(0) =~= Seq::<char>::empty());
    while i < chars.len()
        invariant
            chars@ == s,
            s == source@,
            0 <= i <= s.len(),
            forall|j: int| 0 <= j <= i ==> nesting(#[trigger] s.take(j)) >= 0,
            nesting(s.take(i as int)) == stack@.len(),
            code_of(s.take(i as int)) == frames_text(stack@) + render(cur@),
            folded(cur@),
            forall|k: int| 0 <= k < stack@.len() ==> folded(#[trigger] stack@[k]@),
        decreases s.len() - i,
    {
        let c = chars[i];
        let ghost p = s.take(i as int);
        let ghost q = s.take(i + 1);
        proof {
            assert(q.drop_last() =~= p);
            lemma_code_len(p);
        }
        if c == '>' || c == '<' || c == '+' || c == '-' {
            push_run(&mut cur, c);
            assert(code_of(q) =~= frames_text(stack@) + render(cur@));
        } else if c == '.' || c == ',' {
            let ghost before = cur@;
            if c == '.' {
                cur.push(Operation::Output);
            } else {
                cur.push(Operation::Input);
            }
            assert(cur@.drop_last() =~= before);
            assert(render_op(cur@.last()) == seq![c]);
            assert(render(cur@) == render(before) + seq![c]);
            assert(folded(cur@.drop_last()));
            assert(folded_op(cur@.last()));
            assert(cur@.len() >= 2 ==> !same_run(cur@[cur@.len() - 2], cur@.last()));
            assert(folded(cur@));
            assert(code_of(q) =~= frames_text(stack@) + render(cur@));
        } else if c == '[' {
            let ghost before = stack@;
            stack.push(cur);
            let ghost body = stack@.last()@;
            cur = Vec::new();
            assert(stack@.drop_last() =~= before);
            assert(frames_text(stack@) == frames_text(before) + render(body) + seq!['[']);
            assert(render(cur@) == Seq::<char>::empty());
            assert(code_of(q) =~= frames_text(stack@) + render(cur@));
        } else if c == ']' {
            let ghost before = stack@;
            let ghost body = cur@;
            match stack.pop() {
                None => {
                    assert(nesting(q) < 0);
                    return Err(InterpreterError::ParseError(String::from_str("Unexpected end of loop")));
                },
                Some(parent) => {
                    let mut parent = parent;
                    let ghost outer = parent@;
                    assert(folded(before[before.len() - 1]@));
                    parent.push(Operation::Loop(cur));
                    cur = parent;
                    assert(cur@.drop_last() =~= outer);
                    assert(before.drop_last() =~= stack@);
                    assert(frames_text(before) == frames_text(stack@) + render(outer) + seq!['[']);
                    assert(render_op(cur@.last()) == seq!['['] + render(body) + seq![']']);
                    assert(render(cur@) == render(outer) + render_op(cur@.last()));
                    assert(folded(cur@.drop_last()));
                    assert(folded_op(cur@.last()));
                    assert(cur@.len() >= 2 ==> !same_run(cur@[cur@.len() - 2], cur@.last()));
                    assert(code_of(q) =~= frames_text(stack@) + render(cur@));
                },
            }
        } else {
            assert(code_of(q) == code_of(p));
        }
        i += 1;
    }
    assert(s.take(s.len() as int) =~= s);
    if stack.len() > 0 {
        Err(InterpreterError::ParseError(String::from_str("Expected end of loop")))
    } else {
        Ok(cur)
    }
}

}
