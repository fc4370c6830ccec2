//! The tape: a growable row of wrapping 8-bit cells with a cursor.
use std::collections::VecDeque;
use vstd::prelude::*;

use crate::commands::{lemma_program_index, program, Command, Instruction};
use crate::error::{BraincluckError, IoFault};
use crate::semantics::{exec_all, exec_one, run, run_one, terminates, terminates_one, Machine, Run};

verus! {

/// The mathematical tape: the cell values from left to right, and the index
/// of the cell under the cursor.
pub struct Tape {
    pub cells: Seq<i8>,
    pub cursor: int,
}

/// The value after `value` in 8-bit two's-complement arithmetic.
pub open spec fn wrapping_succ(value: i8) -> i8 {
    if value == i8::MAX {
        i8::MIN
    } else {
        (value + 1) as i8
    }
}

/// The value before `value` in 8-bit two's-complement arithmetic.
pub open spec fn wrapping_pred(value: i8) -> i8 {
    if value == i8::MIN {
        i8::MAX
    } else {
        (value - 1) as i8
    }
}

/// The signed cell value that holds the same eight bits as `byte`.
pub open spec fn byte_to_cell(byte: u8) -> i8 {
    if byte < 128 {
        byte as i8
    } else {
        (byte - 256) as i8
    }
}

impl Tape {
    /// A fresh tape: one cell, holding zero, under the cursor.
    pub open spec fn fresh() -> Tape {
        Tape { cells: seq![0i8], cursor: 0 }
    }

    /// The cursor points at an existing cell and has not passed its
    /// ceiling, `isize::MAX`.
    pub open spec fn wf(self) -> bool {
        0 <= self.cursor < self.cells.len() && self.cursor <= isize::MAX
    }

    /// The value of the cell under the cursor.
    pub open spec fn current(self) -> i8 {
        self.cells[self.cursor]
    }

    /// The tape with `value` stored in the cell under the cursor.
    pub open spec fn store(self, value: i8) -> Tape {
        Tape { cells: self.cells.update(self.cursor, value), cursor: self.cursor }
    }

    /// One step to the left. At the left end the tape grows by a zero cell
    /// and the cursor stays on index 0, which is that new cell.
    pub open spec fn left(self) -> Tape {
        if self.cursor == 0 {
            Tape { cells: seq![0i8] + self.cells, cursor: 0 }
        } else {
            Tape { cells: self.cells, cursor: self.cursor - 1 }
        }
    }

    /// One step to the right. Past the right end the tape grows by a zero
    /// cell. A cursor that has reached `isize::MAX` stays where it is.
    pub open spec fn right(self) -> Tape {
        if self.cursor < isize::MAX {
            Tape {
                cells: if self.cursor + 1 == self.cells.len() {
                    self.cells.push(0i8)
                } else {
                    self.cells
                },
                cursor: self.cursor + 1,
            }
        } else {
            self
        }
    }

    /// The character that the current cell stands for: the one whose code
    /// is the cell's value. A negative cell stands for none.
    pub open spec fn output(self) -> Result<char, BraincluckError> {
        if self.current() >= 0 {
            Ok(self.current() as char)
        } else {
            Err(BraincluckError::ConversionError)
        }
    }

    /// The cell under the cursor goes up by one, wrapping from 127 to -128.
    pub open spec fn increment(self) -> Tape {
        self.store(wrapping_succ(self.current()))
    }

    /// The cell under the cursor goes down by one, wrapping from -128 to 127.
    pub open spec fn decrement(self) -> Tape {
        self.store(wrapping_pred(self.current()))
    }
}

/// Growth is symmetric: a step to the left and a step back to the right end
/// on the cell where they began. Where the step to the left grew the tape,
/// the one new cell holds zero and stands in front; all other cells keep
/// their values and their order.
pub proof fn lemma_left_then_right(tape: Tape)
    requires
        tape.wf(),
    ensures
        tape.left().right().wf(),
        tape.left().right().current() == tape.current(),
        tape.cursor == 0 ==> tape.left().right() == (Tape {
            cells: seq![0i8] + tape.cells,
            cursor: 1,
        }),
        tape.cursor > 0 ==> tape.left().right() == tape,
{
}

/// A step to the right and a step back to the left end on the cell where
/// they began, unless the cursor stands at its ceiling. Where the step to
/// the right grew the tape, the one new cell holds zero and stands at the
/// end.
pub proof fn lemma_right_then_left(tape: Tape)
    requires
        tape.wf(),
        tape.cursor < isize::MAX,
    ensures
        tape.right().left().wf(),
        tape.right().left().current() == tape.current(),
        tape.right().left().cursor == tape.cursor,
        tape.cursor + 1 == tape.cells.len() ==> tape.right().left().cells == tape.cells.push(0i8),
        tape.cursor + 1 < tape.cells.len() ==> tape.right().left() == tape,
{
}

/// Every tape operation keeps the cursor on an existing cell.
pub proof fn lemma_operations_keep_wf(tape: Tape, value: i8)
    requires
        tape.wf(),
    ensures
        tape.left().wf(),
        tape.right().wf(),
        tape.increment().wf(),
        tape.decrement().wf(),
        tape.store(value).wf(),
{
}

/// Counting up and counting down undo each other, also across the
/// wraparound, and 256 steps up come back to the same value.
pub proof fn lemma_wrapping_inverse(value: i8)
    ensures
        wrapping_pred(wrapping_succ(value)) == value,
        wrapping_succ(wrapping_pred(value)) == value,
        wrapping_succ(value) != value,
{
}

/// An array of memory cells that commands are applied to. It grows on demand
/// in both directions.
///
/// Create one with [`Cells::with_capacity`] or with `Cells::default()`, which
/// reserves room for 30 000 cells.
#[derive(Debug)]
pub struct Cells {
    memory: VecDeque<i8>,
    index: usize,
}

impl View for Cells {
    type V = Tape;

    closed spec fn view(&self) -> Tape {
        Tape { cells: self.memory@, cursor: self.index as int }
    }
}

impl Cells {
    /// The cursor points at an existing cell and has not passed its ceiling.
    /// Every constructor establishes this and every method keeps it.
    pub open spec fn wf(&self) -> bool {
        self@.wf()
    }

    /// A fresh tape with room reserved for `capacity` cells.
    pub fn with_capacity(capacity: usize) -> (cells: Self)
        ensures
            cells.wf(),
            cells@ == Tape::fresh(),
    {
        let mut mem = VecDeque::with_capacity(capacity);
        mem.push_back(0);
        Self { memory: mem, index: 0 }
    }

    /// Moves the cursor one cell to the left, growing the tape at its left
    /// end when the cursor is already on the first cell.
    pub fn left(&mut self)
        requires
            old(self).wf(),
        ensures
            final(self).wf(),
            final(self)@ == old(self)@.left(),
    {
        if self.index == 0 {
            self.memory.push_front(0);
        } else {
            self.index -= 1;
        }
    }

    /// Moves the cursor one cell to the right, growing the tape at its right
    /// end when needed. Does nothing once the cursor has reached
    /// `isize::MAX`.
    pub fn right(&mut self)
        requires
            old(self).wf(),
        ensures
            final(self).wf(),
            final(self)@ == old(self)@.right(),
    {
        if self.index < isize::MAX as usize {
            self.index += 1;
            if self.index == self.memory.len() {
                self.memory.push_back(0);
            }
        }
    }

    /// Adds one to the current cell, wrapping around.
    pub fn increment(&mut self)
        requires
            old(self).wf(),
        ensures
            final(self).wf(),
            final(self)@ == old(self)@.increment(),
    {
        let value = self.memory[self.index].wrapping_add(1);
        set_cell(&mut self.memory, self.index, value);
    }

    /// Subtracts one from the current cell, wrapping around.
    pub fn decrement(&mut self)
        requires
            old(self).wf(),
        ensures
            final(self).wf(),
            final(self)@ == old(self)@.decrement(),
    {
        let value = self.memory[self.index].wrapping_sub(1);
        set_cell(&mut self.memory, self.index, value);
    }

    /// The current cell as a character. A negative cell stands for no
    /// character and gives `ConversionError`.
    pub fn output(&self) -> (res: Result<char, BraincluckError>)
        requires
            self.wf(),
        ensures
            res == self@.output(),
    {
        match u8::try_from(self.memory[self.index]) {
            Ok(num) => Ok(num as char),
            Err(_) => Err(BraincluckError::ConversionError),
        }
    }

    /// Stores an input value in the current cell.
    pub fn input(&mut self, input: i8)
        requires
            old(self).wf(),
        ensures
            final(self).wf(),
            final(self)@ == old(self)@.store(input),
    {
        set_cell(&mut self.memory, self.index, input);
    }

    /// The value of the current cell.
    pub fn current(&self) -> (value: i8)
        requires
            self.wf(),
        ensures
            value == self@.current(),
    {
        self.memory[self.index]
    }

    /// Whether the current cell holds zero.
    pub fn is_current_cell_zero(&self) -> (zero: bool)
        requires
            self.wf(),
        ensures
            zero == (self@.current() == 0),
    {
        self.memory[self.index] == 0
    }

    /// The state of a run that works on this tape, with `input` left to read
    /// and `output` written so far.
    pub open spec fn machine(&self, input: Seq<u8>, output: Seq<u8>) -> Machine {
        Machine { tape: self@, input: input, output: output }
    }

    /// Applies `commands` in order and stops at the first error. What was
    /// done before an error stays done.
    ///
    /// The bytes of `input` are read from its front, and each `Output`
    /// command appends one byte to `output`. A program that loops forever
    /// keeps this function running forever, so the contract speaks of the
    /// runs that end. A caller that cannot know whether the run ends, or
    /// that reads and writes as the program goes, takes the run step by
    /// step with a [`crate::runner::Runner`].
    pub fn interpret(
        &mut self,
        commands: &[Command],
        output: &mut Vec<u8>,
        input: &mut VecDeque<u8>,
    ) -> (res: Result<(), BraincluckError>)
        requires
            old(self).wf(),
            terminates(program(commands@), old(self).machine(old(input)@, old(output)@)),
        ensures
            final(self).wf(),
            (Run { state: final(self).machine(final(input)@, final(output)@), result: res })
                == run(program(commands@), old(self).machine(old(input)@, old(output)@)),
    {
        let ghost start = self.machine(input@, output@);
        let ghost fuel = choose|fuel: nat|
            (#[trigger] exec_all(program(commands@), start, fuel)) is Some;
        self.interpret_with(commands, output, input, Ghost(fuel))
    }

    /// Executes a single command; a `Jump` runs its body until the current
    /// cell is zero.
    ///
    /// As with [`Cells::interpret`], the contract speaks of the runs that
    /// end.
    pub fn execute(
        &mut self,
        command: &Command,
        output: &mut Vec<u8>,
        input: &mut VecDeque<u8>,
    ) -> (res: Result<(), BraincluckError>)
        requires
            old(self).wf(),
            terminates_one(command@, old(self).machine(old(input)@, old(output)@)),
        ensures
            final(self).wf(),
            (Run { state: final(self).machine(final(input)@, final(output)@), result: res })
                == run_one(command@, old(self).machine(old(input)@, old(output)@)),
    {
        let ghost start = self.machine(input@, output@);
        let ghost fuel = choose|fuel: nat| (#[trigger] exec_one(command@, start, fuel)) is Some;
        self.execute_with(command, output, input, Ghost(fuel))
    }

    /// Applies `commands` in order, where `fuel` is known to suffice for the
    /// run.
    fn interpret_with(
        &mut self,
        commands: &[Command],
        output: &mut Vec<u8>,
        input: &mut VecDeque<u8>,
        Ghost(fuel): Ghost<nat>,
    ) -> (res: Result<(), BraincluckError>)
        requires
            old(self).wf(),
            exec_all(program(commands@), old(self).machine(old(input)@, old(output)@), fuel)
                is Some,
        ensures
            final(self).wf(),
            Some(Run { state: final(self).machine(final(input)@, final(output)@), result: res })
                == exec_all(
                program(commands@),
                old(self).machine(old(input)@, old(output)@),
                fuel,
            ),
        decreases fuel, 1 + commands@.len(),
    {
        let ghost all = program(commands@);
        let ghost goal = exec_all(all, self.machine(input@, output@), fuel);
        proof {
            lemma_program_index(commands@);
            assert(all.skip(0) == all);
        }
        let mut i: usize = 0;
        while i < commands.len()
            invariant
                0 <= i <= commands@.len(),
                self.wf(),
                all == program(commands@),
                all.len() == commands@.len(),
                forall|k: int| 0 <= k < commands@.len() ==> (#[trigger] all[k]) == commands@[k]@,
                goal is Some,
                goal == exec_all(all, old(self).machine(old(input)@, old(output)@), fuel),
                exec_all(all.skip(i as int), self.machine(input@, output@), fuel) == goal,
            decreases commands@.len() - i,
        {
            proof {
                assert(all.skip(i as int).first() == commands@[i as int]@);
                assert(all.skip(i as int).drop_first() == all.skip(i + 1));
            }
            let step = self.execute_with(&commands[i], output, input, Ghost(fuel));
            if step.is_err() {
                return step;
            }
            i = i + 1;
        }
        proof {
            assert(all.skip(i as int).len() == 0);
        }
        Ok(())
    }

    /// Executes one command, where `fuel` is known to suffice for the run.
    fn execute_with(
        &mut self,
        command: &Command,
        output: &mut Vec<u8>,
        input: &mut VecDeque<u8>,
        Ghost(fuel): Ghost<nat>,
    ) -> (res: Result<(), BraincluckError>)
        requires
            old(self).wf(),
            exec_one(command@, old(self).machine(old(input)@, old(output)@), fuel) is Some,
        ensures
            final(self).wf(),
            Some(Run { state: final(self).machine(final(input)@, final(output)@), result: res })
                == exec_one(command@, old(self).machine(old(input)@, old(output)@), fuel),
        decreases fuel, 0nat,
    {
        match command {
            Command::Right => self.right(),
            Command::Left => self.left(),
            Command::Increment => self.increment(),
            Command::Decrement => self.decrement(),
            Command::Output => {
                match self.output() {
                    Ok(c) => output.push(c as u8),
                    Err(error) => {
                        return Err(error);
                    },
                }
            },
            Command::Input => {
                match input.pop_front() {
                    Some(byte) => {
                        assert(old(input)@.subrange(1, old(input)@.len() as int) == old(
                            input,
                        )@.drop_first());
                        self.input(cell_of(byte));
                    },
                    None => {
                        return Err(BraincluckError::IOError(IoFault::UnexpectedEof));
                    },
                }
            },
            Command::Jump(block) => {
                let ghost goal = exec_one(command@, self.machine(input@, output@), fuel);
                let ghost mut left = fuel;
                while !self.is_current_cell_zero()
                    invariant
                        self.wf(),
                        left <= fuel,
                        command@ == Instruction::Loop(program(block@)),
                        goal is Some,
                        goal == exec_one(
                            command@,
                            old(self).machine(old(input)@, old(output)@),
                            fuel,
                        ),
                        exec_one(command@, self.machine(input@, output@), left) == goal,
                    decreases left,
                {
                    let turn = self.interpret_with(
                        block.as_slice(),
                        output,
                        input,
                        Ghost((left - 1) as nat),
                    );
                    if turn.is_err() {
                        return turn;
                    }
                    proof {
                        left = (left - 1) as nat;
                    }
                }
            },
        }
        Ok(())
    }

    /// The cells of the tape, from left to right.
    pub fn cells(&self) -> (memory: &VecDeque<i8>)
        ensures
            memory@ == self@.cells,
    {
        &self.memory
    }

    /// A hook for tracing a run. It does nothing.
    pub fn debug(&self) {
    }
}

impl Clone for Cells {
    /// A tape of its own with the same cells and the same cursor.
    fn clone(&self) -> (copy: Self)
        ensures
            copy@ == self@,
    {
        let memory = self.memory.clone();
        proof {
            assert forall|i: int| 0 <= i < self.memory@.len() implies memory@[i]
                == self.memory@[i] by {
                assert(cloned::<i8>(self.memory@[i], memory@[i]));
            }
            assert(memory@ =~= self.memory@);
        }
        Cells { memory: memory, index: self.index }
    }
}

impl Default for Cells {
    fn default() -> (cells: Self)
        ensures
            cells.wf(),
            cells@ == Tape::fresh(),
    {
        Self::with_capacity(30000)
    }
}

/// The cell value with the same eight bits as an input byte.
pub(crate) fn cell_of(byte: u8) -> (cell: i8)
    ensures
        cell == byte_to_cell(byte),
{
    if byte < 128 {
        byte as i8
    } else {
        (byte as i16 - 256) as i8
    }
}

/// Overwrites one element of the deque through `VecDeque`'s `IndexMut`, which
/// vstd leaves unspecified. The standard library documents that indexing
/// panics when the index is out of bounds, which `requires` excludes; the
/// assignment replaces that element and leaves every other one in place.
#[verifier::external_body]
fn set_cell(memory: &mut VecDeque<i8>, index: usize, value: i8)
    requires
        index < old(memory)@.len(),
    ensures
        final(memory)@ == old(memory)@.update(index as int, value),
{
    memory[index] = value;
}

} // verus!
