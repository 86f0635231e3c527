use vstd::prelude::*;

use crate::operation::{InterpreterError, Operation};

verus! {

broadcast use vstd::std_specs::vec::axiom_vec_decreases_to_view, vstd::seq::axiom_seq_subrange_decreases,
    vstd::seq::axiom_seq_index_decreases;

/// Number of cells on the tape.
pub const MEMORY_SIZE: usize = 30000;

/// What a program reads: these bytes in order, and once they are used up,
/// either end of stream (`fault` is `None`) or a read error with its cause.
pub struct InputSource {
    pub bytes: Vec<u8>,
    pub fault: Option<String>,
}

impl InputSource {
    /// A stream of `bytes` followed by end of stream.
    pub fn new(bytes: Vec<u8>) -> (r: InputSource)
        ensures
            r.bytes@ == bytes@,
            r.fault is None,
    {
        InputSource { bytes, fault: None }
    }

    /// A stream of `bytes` after which reading fails with `cause`.
    pub fn failing(bytes: Vec<u8>, cause: String) -> (r: InputSource)
        ensures
            r.bytes@ == bytes@,
            r.fault == Some(cause),
    {
        InputSource { bytes, fault: Some(cause) }
    }
}

/// The state of a run: the cells, the pointer, the output so far and how many
/// input bytes have been consumed.
pub struct Tape {
    pub cells: Seq<u8>,
    pub ptr: int,
    pub out: Seq<char>,
    pub pos: int,
}

/// The state in which every run starts: all cells zero, pointer at the first
/// cell, no output, no input consumed.
pub open spec fn initial_tape() -> Tape {
    Tape { cells: Seq::new(MEMORY_SIZE as nat, |_i: int| 0u8), ptr: 0, out: Seq::empty(), pos: 0 }
}

/// The value under the pointer.
pub open spec fn current(t: Tape) -> u8 {
    t.cells[t.ptr]
}

/// The tape with the value under the pointer replaced by `v`.
pub open spec fn store(t: Tape, v: u8) -> Tape {
    Tape { cells: t.cells.update(t.ptr, v), ..t }
}

/// Effect of one operation. A loop runs its body at most `fuel` times, and
/// each run of the body gets one less.
pub open spec fn run_op(op: Operation, t: Tape, input: InputSource, fuel: nat) -> Result<
    Tape,
    InterpreterError,
>
    decreases fuel, op,
{
    match op {
        Operation::MoveRight(n) => if t.ptr + n >= MEMORY_SIZE {
            Err(InterpreterError::PointerOverflow)
        } else {
            Ok(Tape { ptr: t.ptr + n, ..t })
        },
        Operation::MoveLeft(n) => if n > t.ptr {
            Err(InterpreterError::PointerOverflow)
        } else {
            Ok(Tape { ptr: t.ptr - n, ..t })
        },
        Operation::Increment(n) => if current(t) + n > 255 {
            Err(InterpreterError::MemoryOverflow)
        } else {
            Ok(store(t, (current(t) + n) as u8))
        },
        Operation::Decrement(n) => if n > current(t) {
            Err(InterpreterError::MemoryOverflow)
        } else {
            Ok(store(t, (current(t) - n) as u8))
        },
        Operation::Output => Ok(Tape { out: t.out.push(current(t) as char), ..t }),
        Operation::Input => if t.pos < input.bytes@.len() {
            Ok(Tape { pos: t.pos + 1, ..store(t, input.bytes@[t.pos]) })
        } else {
            match input.fault {
                Some(cause) => Err(InterpreterError::StdinError(cause)),
                None => Ok(store(t, 0)),
            }
        },
        Operation::Loop(body) => run_loop(body@, t, input, fuel),
    }
}

/// Effect of a sequence of operations, in order, stopping at the first error.
pub open spec fn run_seq(ops: Seq<Operation>, t: Tape, input: InputSource, fuel: nat) -> Result<
    Tape,
    InterpreterError,
>
    decreases fuel, ops,
{
    if ops.len() == 0 {
        Ok(t)
    } else {
        match run_op(ops[0], t, input, fuel) {
            Ok(t1) => run_seq(ops.drop_first(), t1, input, fuel),
            Err(e) => Err(e),
        }
    }
}

/// Effect of a loop: while the value under the pointer is not zero, run the body.
pub open spec fn run_loop(body: Seq<Operation>, t: Tape, input: InputSource, fuel: nat) -> Result<
    Tape,
    InterpreterError,
>
    decreases fuel, body,
{
    if current(t) == 0 {
        Ok(t)
    } else if fuel == 0 {
        Err(InterpreterError::StepLimit)
    } else {
        match run_seq(body, t, input, (fuel - 1) as nat) {
            Ok(t1) => run_loop(body, t1, input, (fuel - 1) as nat),
            Err(e) => Err(e),
        }
    }
}

/// The machine of one run.
pub struct Program {
    memory: Vec<u8>,
    pointer: usize,
    output: Vec<char>,
    input: InputSource,
    pos: usize,
}

impl Program {
    pub closed spec fn view(&self) -> Tape {
        Tape {
            cells: self.memory@,
            ptr: self.pointer as int,
            out: self.output@,
            pos: self.pos as int,
        }
    }

    pub closed spec fn wf(&self) -> bool {
        &&& self.memory@.len() == MEMORY_SIZE
        &&& self.pointer < MEMORY_SIZE
        &&& self.pos <= self.input.bytes@.len()
    }

    pub closed spec fn source(&self) -> InputSource {
        self.input
    }

    /// A fresh machine that reads from `input`.
    pub fn new(input: InputSource) -> (p: Program)
        ensures
            p.wf(),
            p@ == initial_tape(),
            p.source() == input,
    {
        let mut memory: Vec<u8> = Vec::new();
        while memory.len() < MEMORY_SIZE
            invariant
                memory@.len() <= MEMORY_SIZE,
                forall|i: int| 0 <= i < memory@.len() ==> memory@[i] == 0u8,
            decreases MEMORY_SIZE - memory@.len(),
        {
            memory.push(0u8);
        }
        assert(memory@ =~= initial_tape().cells);
        Program { memory, pointer: 0, output: Vec::new(), input, pos: 0 }
    }

    /// Runs `operations` to the end and hands back what they printed.
    pub fn execute(self, operations: &Vec<Operation>, fuel: u64) -> (r: Result<
        Vec<char>,
        InterpreterError,
    >)
        requires
            self.wf(),
        ensures
            match run_seq(operations@, self@, self.source(), fuel as nat) {
                Ok(t) => r == Ok::<Vec<char>, InterpreterError>(r->Ok_0) && r->Ok_0@ == t.out,
                Err(e) => r == Err::<Vec<char>, InterpreterError>(e),
            },
    {
        let mut program = self;
        match program.process_operations(operations, fuel) {
            Ok(()) => Ok(program.output),
            Err(e) => Err(e),
        }
    }

    /// Applies one operation.
    fn apply(&mut self, op: &Operation, fuel: u64) -> (r: Result<(), InterpreterError>)
        requires
            old(self).wf(),
        ensures
            final(self).wf(),
            final(self).source() == old(self).source(),
            match run_op(*op, old(self)@, old(self).source(), fuel as nat) {
                Ok(t) => r is Ok && final(self)@ == t,
                Err(e) => r == Err::<(), InterpreterError>(e),
            },
        decreases fuel, 0int,
    {
        match op {
            Operation::MoveRight(n) => {
                if *n >= MEMORY_SIZE - self.pointer {
                    return Err(InterpreterError::PointerOverflow);
                }
                self.pointer = self.pointer + *n;
            },
            Operation::MoveLeft(n) => {
                if *n > self.pointer {
                    return Err(InterpreterError::PointerOverflow);
                }
                self.pointer = self.pointer - *n;
            },
            Operation::Increment(n) => {
                let v = self.memory[self.pointer];
                if *n > (255 - v) as usize {
                    return Err(InterpreterError::MemoryOverflow);
                }
                self.memory[self.pointer] = v + (*n as u8);
            },
            Operation::Decrement(n) => {
                let v = self.memory[self.pointer];
                if *n > v as usize {
                    return Err(InterpreterError::MemoryOverflow);
                }
                self.memory[self.pointer] = v - (*n as u8);
            },
            Operation::Output => {
                let v = self.memory[self.pointer];
                self.output.push(v as char);
            },
            Operation::Input => {
                if self.pos < self.input.bytes.len() {
                    self.memory[self.pointer] = self.input.bytes[self.pos];
                    self.pos = self.pos + 1;
                } else {
                    match &self.input.fault {
                        Some(cause) => {
                            return Err(InterpreterError::StdinError(cause.clone()));
                        },
                        None => {
                            self.memory[self.pointer] = 0;
                        },
                    }
                }
            },
            Operation::Loop(body) => {
                let ghost start = self@;
                assert(run_op(*op, start, self.source(), fuel as nat) == run_loop(
                    body@,
                    start,
                    self.source(),
                    fuel as nat,
                ));
                let mut f = fuel;
                while self.memory[self.pointer] != 0
                    invariant
                        self.wf(),
                        self.source() == old(self).source(),
                        f <= fuel,
                        start == old(self)@,
                        run_op(*op, start, self.source(), fuel as nat) == run_loop(
                            body@,
                            start,
                            self.source(),
                            fuel as nat,
                        ),
                        run_loop(body@, start, self.source(), fuel as nat) == run_loop(
                            body@,
                            self@,
                            self.source(),
                            f as nat,
                        ),
                    decreases f,
                {
                    let ghost before = self@;
                    assert(current(before) != 0);
                    assert(f == 0 ==> run_loop(body@, before, self.source(), f as nat) == Err::<
                        Tape,
                        InterpreterError,
                    >(InterpreterError::StepLimit));
                    if f == 0 {
                        return Err(InterpreterError::StepLimit);
                    }
                    f = f - 1;
                    match self.process_operations(body, f) {
                        Ok(()) => {},
                        Err(e) => {
                            assert(run_seq(body@, before, self.source(), f as nat) == Err::<
                                Tape,
                                InterpreterError,
                            >(e));
                            return Err(e);
                        },
                    }
                }
            },
        }
        Ok(())
    }

    /// Applies a sequence of operations in order, stopping at the first error.
    fn process_operations(&mut self, operations: &Vec<Operation>, fuel: u64) -> (r: Result<
        (),
        InterpreterError,
    >)
        requires
            old(self).wf(),
        ensures
            final(self).wf(),
            final(self).source() == old(self).source(),
            match run_seq(operations@, old(self)@, old(self).source(), fuel as nat) {
                Ok(t) => r is Ok && final(self)@ == t,
                Err(e) => r == Err::<(), InterpreterError>(e),
            },
        decreases fuel, 1int,
    {
        let ghost ops = operations@;
        let mut i: usize = 0;
        assert(ops.skip(0) =~= ops);
        while i < operations.len()
            invariant
                self.wf(),
                self.source() == old(self).source(),
                i <= ops.len(),
                ops == operations@,
                run_seq(ops, old(self)@, self.source(), fuel as nat) == run_seq(
                    ops.skip(i as int),
                    self@,
                    self.source(),
                    fuel as nat,
                ),
            decreases ops.len() - i,
        {
            assert(ops.skip(i as int).drop_first() =~= ops.skip(i + 1));
            match self.apply(&operations[i], fuel) {
                Ok(()) => {},
                Err(e) => {
                    return Err(e);
                },
            }
            i = i + 1;
        }
        Ok(())
    }
}

}
