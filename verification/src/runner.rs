//! Running a program one instruction at a time, for callers that do the
//! input and output themselves.
//!
//! [`Runner::advance`] takes one step and says what the caller is to do
//! next: go on, write a byte, or read one. The caller hands the byte it
//! read, or the news that there is none, to the next step. No step loops,
//! so a program that never ends keeps its caller busy and not the runner.
use vstd::prelude::*;

use crate::cells::{byte_to_cell, cell_of, Cells, Tape};
use crate::commands::{lemma_program_index, program, Command, Instruction};
use crate::error::{BraincluckError, IoFault};
use crate::semantics::{
    exec_all, exec_one, lemma_more_fuel_all, lemma_more_fuel_one, lemma_run_by_fuel, run,
    terminates, Machine,
};

verus! {

/// What the caller brings to a step.
#[derive(Debug, Clone, Copy, PartialEq, Eq, Structural)]
pub enum Event {
    /// Nothing: the last step asked for nothing.
    Resume,
    /// The byte that the last step asked for.
    Byte(u8),
    /// The last step asked for a byte and the input has none left.
    EndOfInput,
}

/// What the caller is to do after a step.
#[derive(Debug, Clone, Copy, PartialEq, Eq, Structural)]
pub enum Action {
    /// Take the next step.
    Continue,
    /// Write this byte to the output, then take the next step.
    Write(u8),
    /// Read one byte of input and bring it to the next step.
    Read,
    /// Nothing: the program has run to its end.
    Done,
}

/// Where a run stands after a step: the tape, the instructions that are
/// still to run, and what the step asks of the caller or why it failed.
pub struct Progress {
    pub tape: Tape,
    pub todo: Seq<Instruction>,
    pub result: Result<Action, BraincluckError>,
}

/// One step of a run that has `todo` still to run. The step takes the first
/// instruction of `todo`:
/// a tape instruction changes the tape; `Output` asks the caller to write
/// the current cell, or fails on a negative cell; `Input` asks for a byte,
/// and takes the one that `event` brings or fails when `event` brings the
/// end of the input; a loop is passed over on a zero cell, and otherwise
/// puts its body in front of itself. A failed step leaves everything as it
/// was.
pub open spec fn step(tape: Tape, todo: Seq<Instruction>, event: Event) -> Progress {
    if todo.len() == 0 {
        Progress { tape: tape, todo: todo, result: Ok(Action::Done) }
    } else {
        let rest = todo.drop_first();
        match todo.first() {
            Instruction::MoveRight => Progress {
                tape: tape.right(),
                todo: rest,
                result: Ok(Action::Continue),
            },
            Instruction::MoveLeft => Progress {
                tape: tape.left(),
                todo: rest,
                result: Ok(Action::Continue),
            },
            Instruction::Increment => Progress {
                tape: tape.increment(),
                todo: rest,
                result: Ok(Action::Continue),
            },
            Instruction::Decrement => Progress {
                tape: tape.decrement(),
                todo: rest,
                result: Ok(Action::Continue),
            },
            Instruction::Output => {
                if tape.current() >= 0 {
                    Progress {
                        tape: tape,
                        todo: rest,
                        result: Ok(Action::Write(tape.current() as u8)),
                    }
                } else {
                    Progress {
                        tape: tape,
                        todo: todo,
                        result: Err(BraincluckError::ConversionError),
                    }
                }
            },
            Instruction::Input => match event {
                Event::Byte(byte) => Progress {
                    tape: tape.store(byte_to_cell(byte)),
                    todo: rest,
                    result: Ok(Action::Continue),
                },
                Event::EndOfInput => Progress {
                    tape: tape,
                    todo: todo,
                    result: Err(BraincluckError::IOError(IoFault::UnexpectedEof)),
                },
                Event::Resume => Progress { tape: tape, todo: todo, result: Ok(Action::Read) },
            },
            Instruction::Loop(body) => {
                if tape.current() == 0 {
                    Progress { tape: tape, todo: rest, result: Ok(Action::Continue) }
                } else {
                    Progress { tape: tape, todo: body + todo, result: Ok(Action::Continue) }
                }
            },
        }
    }
}

/// The event that a caller brings who reads from the input of `machine`:
/// its next byte, or the end of the input, where the step is an `Input`,
/// and nothing otherwise.
pub open spec fn event_from(todo: Seq<Instruction>, machine: Machine) -> Event {
    if todo.len() > 0 && todo.first() is Input {
        if machine.input.len() == 0 {
            Event::EndOfInput
        } else {
            Event::Byte(machine.input.first())
        }
    } else {
        Event::Resume
    }
}

/// The state of `machine` after one step whose caller reads from the input
/// of `machine` and writes to its output.
pub open spec fn machine_after(todo: Seq<Instruction>, machine: Machine) -> Machine {
    let progress = step(machine.tape, todo, event_from(todo, machine));
    Machine {
        tape: progress.tape,
        input: if progress.result is Ok && todo.len() > 0 && todo.first() is Input {
            machine.input.drop_first()
        } else {
            machine.input
        },
        output: match progress.result {
            Ok(Action::Write(byte)) => machine.output.push(byte),
            _ => machine.output,
        },
    }
}

/// Running two instruction sequences in a row is running the first and,
/// where that ends well, the second from there.
pub proof fn lemma_exec_concat(
    first: Seq<Instruction>,
    second: Seq<Instruction>,
    machine: Machine,
    fuel: nat,
)
    ensures
        exec_all(first + second, machine, fuel) == match exec_all(first, machine, fuel) {
            None => None,
            Some(head) => if head.result is Err {
                Some(head)
            } else {
                exec_all(second, head.state, fuel)
            },
        },
    decreases first.len(),
{
    if first.len() == 0 {
        assert(first + second == second);
    } else {
        assert((first + second).first() == first.first());
        assert((first + second).drop_first() == first.drop_first() + second);
        match exec_one(first.first(), machine, fuel) {
            Some(head) => {
                if head.result is Ok {
                    lemma_exec_concat(first.drop_first(), second, head.state, fuel);
                }
            },
            None => {},
        }
    }
}

/// A loop that is reached with the current cell not at zero runs like its
/// body followed by the loop itself: with the fuel of the one the other
/// ends, and they end alike.
proof fn lemma_loop_unrolled(todo: Seq<Instruction>, machine: Machine, fuel: nat)
    requires
        todo.len() > 0,
        todo.first() is Loop,
        machine.tape.current() != 0,
    ensures
        exec_all(todo, machine, fuel) is Some ==> exec_all(
            todo.first()->Loop_0 + todo,
            machine,
            fuel,
        ) == exec_all(todo, machine, fuel),
        exec_all(todo.first()->Loop_0 + todo, machine, fuel) is Some ==> exec_all(
            todo,
            machine,
            fuel + 1,
        ) == exec_all(todo.first()->Loop_0 + todo, machine, fuel),
{
    let whole = todo.first();
    let body = todo.first()->Loop_0;
    let rest = todo.drop_first();
    assert(whole == Instruction::Loop(body));
    lemma_exec_concat(body, todo, machine, fuel);
    if exec_all(todo, machine, fuel) is Some {
        assert(exec_one(whole, machine, fuel) is Some);
        assert(fuel > 0);
        let less = (fuel - 1) as nat;
        assert(exec_all(body, machine, less) is Some);
        lemma_more_fuel_all(body, machine, less, fuel);
        let turn = exec_all(body, machine, less).unwrap();
        if turn.result is Ok {
            assert(exec_one(whole, machine, fuel) == exec_one(whole, turn.state, less));
            lemma_more_fuel_one(whole, turn.state, less, fuel);
        }
    }
    if exec_all(body + todo, machine, fuel) is Some {
        let turn = exec_all(body, machine, fuel).unwrap();
        assert(exec_one(whole, machine, fuel + 1) == if turn.result is Err {
            Some(turn)
        } else {
            exec_one(whole, turn.state, fuel)
        });
        if turn.result is Ok {
            assert(exec_all(todo, turn.state, fuel) is Some);
            let again = exec_one(whole, turn.state, fuel).unwrap();
            if again.result is Ok {
                assert(exec_all(rest, again.state, fuel) is Some);
                lemma_more_fuel_all(rest, again.state, fuel, fuel + 1);
            }
        }
    }
}

/// Steps follow the run. Take a caller that reads from the input of
/// `machine` and writes to its output. Where a step fails, the run from
/// `machine` ends there with that error. Where it does not, the run from
/// `machine` ends exactly if the run of what is still to do ends, from the
/// state after the step; and then both end alike.
pub proof fn lemma_step_follows_run(todo: Seq<Instruction>, machine: Machine)
    requires
        todo.len() > 0,
    ensures
        match step(machine.tape, todo, event_from(todo, machine)).result {
            Err(error) => terminates(todo, machine) && run(todo, machine) == machine.failed(error),
            Ok(_) => {
                let after = machine_after(todo, machine);
                let left = step(machine.tape, todo, event_from(todo, machine)).todo;
                &&& terminates(todo, machine) == terminates(left, after)
                &&& terminates(todo, machine) ==> run(todo, machine) == run(left, after)
            },
        },
{
    let progress = step(machine.tape, todo, event_from(todo, machine));
    let after = machine_after(todo, machine);
    let left = progress.todo;
    if progress.result is Err {
        lemma_run_by_fuel(todo, machine, 0);
    } else if todo.first() is Loop && machine.tape.current() != 0 {
        assert(after == machine);
        if terminates(todo, machine) {
            let fuel = choose|fuel: nat| (#[trigger] exec_all(todo, machine, fuel)) is Some;
            lemma_loop_unrolled(todo, machine, fuel);
            lemma_run_by_fuel(todo, machine, fuel);
            lemma_run_by_fuel(left, machine, fuel);
        }
        if terminates(left, machine) {
            let fuel = choose|fuel: nat| (#[trigger] exec_all(left, machine, fuel)) is Some;
            lemma_loop_unrolled(todo, machine, fuel);
            lemma_run_by_fuel(left, machine, fuel);
            lemma_run_by_fuel(todo, machine, fuel + 1);
        }
    } else {
        assert(exec_one(todo.first(), machine, 0) == Some(after.done()));
        assert forall|fuel: nat|
            #![trigger exec_all(todo, machine, fuel)]
            exec_all(todo, machine, fuel) == exec_all(left, after, fuel) by {
            lemma_more_fuel_one(todo.first(), machine, 0, fuel);
        }
        if terminates(todo, machine) {
            let fuel = choose|fuel: nat| (#[trigger] exec_all(todo, machine, fuel)) is Some;
            lemma_run_by_fuel(todo, machine, fuel);
            lemma_run_by_fuel(left, after, fuel);
        }
        if terminates(left, after) {
            let fuel = choose|fuel: nat| (#[trigger] exec_all(left, after, fuel)) is Some;
            assert(exec_all(todo, machine, fuel) is Some);
        }
    }
}

/// A block of commands that is being run, and the index of its next
/// command.
struct Frame<'a> {
    block: &'a [Command],
    next: usize,
}

/// The instructions of a block from its next command on.
spec fn remaining(frame: Frame) -> Seq<Instruction> {
    program(frame.block@).skip(frame.next as int)
}

/// The instructions that a stack of blocks has still to run. The lowest
/// block is the program; each block above is the body of a loop, which
/// comes up for its test again when the body has run.
spec fn pending(frames: Seq<Frame>) -> Seq<Instruction>
    decreases frames.len(),
{
    if frames.len() == 0 {
        Seq::empty()
    } else if frames.len() == 1 {
        remaining(frames[0])
    } else {
        remaining(frames.last()) + seq![Instruction::Loop(program(frames.last().block@))]
            + pending(frames.drop_last())
    }
}

/// A block with commands left begins what is still to run with its next
/// command, and the rest is what is still to run behind that command.
proof fn lemma_pending_next(below: Seq<Frame>, top: Frame, moved: Frame)
    requires
        top.next < top.block@.len(),
        moved.block == top.block,
        moved.next == top.next + 1,
    ensures
        pending(below.push(top)).len() > 0,
        pending(below.push(top)).first() == top.block@[top.next as int]@,
        pending(below.push(moved)) == pending(below.push(top)).drop_first(),
{
    let all = program(top.block@);
    lemma_program_index(top.block@);
    assert(remaining(top).first() == top.block@[top.next as int]@);
    assert(remaining(moved) == remaining(top).drop_first());
    assert(below.push(top).drop_last() == below);
    assert(below.push(moved).drop_last() == below);
    if below.len() > 0 {
        let tail = seq![Instruction::Loop(all)] + pending(below);
        assert(pending(below.push(top)) == remaining(top) + tail);
        assert(pending(below.push(moved)) == remaining(moved) + tail);
        assert((remaining(top) + tail).drop_first() == remaining(top).drop_first() + tail);
    }
}

/// A loop body that has run through leaves its loop as the next thing to
/// run.
proof fn lemma_pending_turn(below: Seq<Frame>, top: Frame)
    requires
        top.next == top.block@.len(),
        below.len() > 0,
    ensures
        pending(below.push(top)) == seq![Instruction::Loop(program(top.block@))] + pending(
            below,
        ),
        pending(below.push(Frame { block: top.block, next: 0 })) == program(top.block@)
            + pending(below.push(top)),
{
    let again = Frame { block: top.block, next: 0 };
    let all = program(top.block@);
    lemma_program_index(top.block@);
    assert(remaining(top) == Seq::<Instruction>::empty());
    assert(remaining(again) == all);
    assert(below.push(top).drop_last() == below);
    assert(below.push(again).drop_last() == below);
    assert(Seq::<Instruction>::empty() + seq![Instruction::Loop(all)] + pending(below) == seq![
        Instruction::Loop(all),
    ] + pending(below));
    assert(all + seq![Instruction::Loop(all)] + pending(below) == all + (seq![
        Instruction::Loop(all),
    ] + pending(below)));
}

/// A loop body on top of the stack runs first, and then its loop comes up
/// for its test.
proof fn lemma_pending_enter(below: Seq<Frame>, body: Frame)
    requires
        body.next == 0,
        below.len() > 0,
    ensures
        pending(below.push(body)) == program(body.block@) + seq![
            Instruction::Loop(program(body.block@)),
        ] + pending(below),
{
    assert(remaining(body) == program(body.block@));
    assert(below.push(body).drop_last() == below);
}

/// A run that is taken one step at a time. It owns the tape and borrows the
/// commands.
pub struct Runner<'a> {
    cells: Cells,
    frames: Vec<Frame<'a>>,
}

impl<'a> Runner<'a> {
    /// The tape as it stands.
    pub closed spec fn tape(&self) -> Tape {
        self.cells@
    }

    /// The instructions that are still to run.
    pub closed spec fn todo(&self) -> Seq<Instruction> {
        pending(self.frames@)
    }

    /// No block has been run past its end.
    pub closed spec fn in_bounds(&self) -> bool {
        forall|i: int|
            0 <= i < self.frames@.len() ==> (#[trigger] self.frames@[i]).next
                <= self.frames@[i].block@.len()
    }

    /// The cursor of the tape points at an existing cell, and no block has
    /// been run past its end. Every constructor establishes this and every
    /// method keeps it.
    pub open spec fn wf(&self) -> bool {
        self.tape().wf() && self.in_bounds()
    }

    /// A run of `commands` on `cells` that has not begun.
    pub fn new(commands: &'a [Command], cells: Cells) -> (runner: Self)
        requires
            cells.wf(),
        ensures
            runner.wf(),
            runner.tape() == cells@,
            runner.todo() == program(commands@),
    {
        let mut frames: Vec<Frame<'a>> = Vec::new();
        frames.push(Frame { block: commands, next: 0 });
        proof {
            assert(program(commands@).skip(0) == program(commands@));
        }
        Runner { cells: cells, frames: frames }
    }

    /// The tape as it stands.
    pub fn cells(&self) -> (cells: &Cells)
        ensures
            cells@ == self.tape(),
    {
        &self.cells
    }

    /// Ends the run and gives the tape back.
    pub fn into_cells(self) -> (cells: Cells)
        ensures
            cells@ == self.tape(),
    {
        self.cells
    }

    /// Takes one step: runs the next instruction and says what the caller
    /// is to do before the next step. `event` brings what the last step
    /// asked for. A step that fails changes nothing.
    pub fn advance(&mut self, event: Event) -> (res: Result<Action, BraincluckError>)
        requires
            old(self).wf(),
        ensures
            final(self).wf(),
            (Progress { tape: final(self).tape(), todo: final(self).todo(), result: res })
                == step(old(self).tape(), old(self).todo(), event),
    {
        let ghost before = self.frames@;
        let top = match self.frames.pop() {
            Some(top) => top,
            None => {
                return Ok(Action::Done);
            },
        };
        let ghost below = self.frames@;
        proof {
            assert(before == below.push(top));
            assert(top == before[before.len() - 1]);
            assert(top.next <= top.block@.len());
            lemma_program_index(top.block@);
            assert forall|i: int| 0 <= i < below.len() implies (#[trigger] below[i]).next
                <= below[i].block@.len() by {
                assert(below[i] == before[i]);
            }
        }
        if top.next >= top.block.len() {
            if self.frames.len() == 0 {
                proof {
                    assert(remaining(top) == Seq::<Instruction>::empty());
                }
                return Ok(Action::Done);
            }
            proof {
                lemma_pending_turn(below, top);
                let whole = Instruction::Loop(program(top.block@));
                assert((seq![whole] + pending(below)).first() == whole);
                assert((seq![whole] + pending(below)).drop_first() == pending(below));
            }
            if !self.cells.is_current_cell_zero() {
                self.frames.push(Frame { block: top.block, next: 0 });
            }
            return Ok(Action::Continue);
        }
        let moved = Frame { block: top.block, next: top.next + 1 };
        proof {
            lemma_pending_next(below, top, moved);
        }
        match &top.block[top.next] {
            Command::Right => {
                self.cells.right();
                self.frames.push(moved);
                Ok(Action::Continue)
            },
            Command::Left => {
                self.cells.left();
                self.frames.push(moved);
                Ok(Action::Continue)
            },
            Command::Increment => {
                self.cells.increment();
                self.frames.push(moved);
                Ok(Action::Continue)
            },
            Command::Decrement => {
                self.cells.decrement();
                self.frames.push(moved);
                Ok(Action::Continue)
            },
            Command::Output => {
                match self.cells.output() {
                    Ok(c) => {
                        self.frames.push(moved);
                        Ok(Action::Write(c as u8))
                    },
                    Err(error) => {
                        self.frames.push(top);
                        assert(self.frames@ == before);
                        Err(error)
                    },
                }
            },
            Command::Input => {
                match event {
                    Event::Byte(byte) => {
                        self.cells.input(cell_of(byte));
                        self.frames.push(moved);
                        Ok(Action::Continue)
                    },
                    Event::EndOfInput => {
                        self.frames.push(top);
                        assert(self.frames@ == before);
                        Err(BraincluckError::IOError(IoFault::UnexpectedEof))
                    },
                    Event::Resume => {
                        self.frames.push(top);
                        assert(self.frames@ == before);
                        Ok(Action::Read)
                    },
                }
            },
            Command::Jump(body) => {
                self.frames.push(moved);
                if !self.cells.is_current_cell_zero() {
                    let inner = Frame { block: body.as_slice(), next: 0 };
                    proof {
                        let todo = pending(before);
                        let whole = Instruction::Loop(program(body@));
                        lemma_pending_enter(below.push(moved), inner);
                        assert(todo.first() == whole);
                        assert(todo == seq![whole] + todo.drop_first());
                        assert(program(body@) + seq![whole] + todo.drop_first() == program(body@)
                            + (seq![whole] + todo.drop_first()));
                    }
                    self.frames.push(inner);
                }
                Ok(Action::Continue)
            },
        }
    }
}

} // verus!
