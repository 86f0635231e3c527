use vstd::prelude::*;

verus! {

broadcast use vstd::std_specs::vec::axiom_vec_decreases_to_view, vstd::seq::axiom_seq_subrange_decreases,
    vstd::seq::axiom_seq_index_decreases;

/// One node of a compiled program. Moves and cell updates carry how many
/// identical commands were folded into them; a loop owns its body.
#[derive(PartialEq, Eq, Debug)]
pub enum Operation {
    MoveRight(usize),
    MoveLeft(usize),
    Increment(usize),
    Decrement(usize),
    Output,
    Input,
    Loop(Vec<Operation>),
}

/// Everything that can end a compilation or a run early.
#[derive(PartialEq, Eq, Debug)]
pub enum InterpreterError {
    /// Unbalanced brackets in the source.
    ParseError(String),
    /// A cell would leave the range 0..=255.
    MemoryOverflow,
    /// The pointer would leave the tape.
    PointerOverflow,
    /// Reading the input failed; holds the cause.
    StdinError(String),
    /// The loop budget of the run was used up before the program halted.
    StepLimit,
}

/// `n` copies of `c`.
pub open spec fn repeat(c: char, n: nat) -> Seq<char> {
    Seq::new(n, |_i: int| c)
}

/// The source text that an operation stands for.
pub open spec fn render_op(op: Operation) -> Seq<char>
    decreases op,
{
    match op {
        Operation::MoveRight(n) => repeat('>', n as nat),
        Operation::MoveLeft(n) => repeat('<', n as nat),
        Operation::Increment(n) => repeat('+', n as nat),
        Operation::Decrement(n) => repeat('-', n as nat),
        Operation::Output => seq!['.'],
        Operation::Input => seq![','],
        Operation::Loop(body) => seq!['['] + render(body@) + seq![']'],
    }
}

/// The source text that a sequence of operations stands for.
pub open spec fn render(ops: Seq<Operation>) -> Seq<char>
    decreases ops,
{
    if ops.len() == 0 {
        Seq::empty()
    } else {
        render(ops.drop_last()) + render_op(ops.last())
    }
}

/// The eight characters that are commands; every other character is a comment.
pub open spec fn is_command(c: char) -> bool {
    c == '>' || c == '<' || c == '+' || c == '-' || c == '.' || c == ',' || c == '['
        || c == ']'
}

/// The commands of a source text, in order, with comments dropped.
pub open spec fn code_of(s: Seq<char>) -> Seq<char>
    decreases s.len(),
{
    if s.len() == 0 {
        Seq::empty()
    } else if is_command(s.last()) {
        code_of(s.drop_last()).push(s.last())
    } else {
        code_of(s.drop_last())
    }
}

/// Number of `[` minus number of `]` in a text.
pub open spec fn nesting(s: Seq<char>) -> int
    decreases s.len(),
{
    if s.len() == 0 {
        0
    } else if s.last() == '[' {
        nesting(s.drop_last()) + 1
    } else if s.last() == ']' {
        nesting(s.drop_last()) - 1
    } else {
        nesting(s.drop_last())
    }
}

/// Some prefix of the text closes a loop that it never opened.
pub open spec fn underflows(s: Seq<char>) -> bool {
    exists|i: int| 0 <= i <= s.len() && #[trigger] nesting(s.take(i)) < 0
}

/// Every `[` of the text is matched by a later `]` and every `]` by an earlier `[`.
pub open spec fn balanced(s: Seq<char>) -> bool {
    !underflows(s) && nesting(s) == 0
}

/// Two operations that folding would merge into one.
pub open spec fn same_run(a: Operation, b: Operation) -> bool {
    ||| a is MoveRight && b is MoveRight
    ||| a is MoveLeft && b is MoveLeft
    ||| a is Increment && b is Increment
    ||| a is Decrement && b is Decrement
}

/// A single node is well formed: runs have a positive count and loop bodies are folded.
pub open spec fn folded_op(op: Operation) -> bool
    decreases op,
{
    match op {
        Operation::MoveRight(n) => n >= 1,
        Operation::MoveLeft(n) => n >= 1,
        Operation::Increment(n) => n >= 1,
        Operation::Decrement(n) => n >= 1,
        Operation::Output => true,
        Operation::Input => true,
        Operation::Loop(body) => folded(body@),
    }
}

/// Fully folded: each node is well formed and no two neighbours form one run,
/// at every depth.
pub open spec fn folded(ops: Seq<Operation>) -> bool
    decreases ops,
{
    if ops.len() == 0 {
        true
    } else {
        &&& folded(ops.drop_last())
        &&& folded_op(ops.last())
        &&& ops.len() >= 2 ==> !same_run(ops[ops.len() - 2], ops.last())
    }
}

/// `ops` is what compiling the source `s` yields.
pub open spec fn compiles_to(s: Seq<char>, ops: Seq<Operation>) -> bool {
    render(ops) == code_of(s) && folded(ops)
}

}
