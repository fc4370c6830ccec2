//! What a program means: the state that a run works on, and the outcome of
//! running an instruction sequence from a state.
use vstd::prelude::*;

use crate::cells::{byte_to_cell, Tape};
use crate::commands::Instruction;
use crate::error::{BraincluckError, IoFault};

verus! {

/// Everything that a run reads and changes: the tape, the input bytes that
/// have not been read, and the output bytes written so far.
pub struct Machine {
    pub tape: Tape,
    pub input: Seq<u8>,
    pub output: Seq<u8>,
}

/// How a run ended: the state it left behind, and whether it ran to the end
/// or stopped at an error. What was done before an error stays done.
pub struct Run {
    pub state: Machine,
    pub result: Result<(), BraincluckError>,
}

impl Machine {
    /// The cursor of the tape points at an existing cell.
    pub open spec fn wf(self) -> bool {
        self.tape.wf()
    }

    /// The machine with another tape.
    pub open spec fn with_tape(self, tape: Tape) -> Machine {
        Machine { tape: tape, input: self.input, output: self.output }
    }

    /// Ends a run here without an error.
    pub open spec fn done(self) -> Run {
        Run { state: self, result: Ok(()) }
    }

    /// Ends a run here with an error.
    pub open spec fn failed(self, error: BraincluckError) -> Run {
        Run { state: self, result: Err(error) }
    }

    /// Writes the current cell to the output as one byte. A negative cell
    /// stands for no character: nothing is written and the run fails.
    pub open spec fn write(self) -> Run {
        if self.tape.current() >= 0 {
            Machine {
                tape: self.tape,
                input: self.input,
                output: self.output.push(self.tape.current() as u8),
            }.done()
        } else {
            self.failed(BraincluckError::ConversionError)
        }
    }

    /// Reads one byte of input into the current cell. With no byte left the
    /// run fails and the tape stays as it is.
    pub open spec fn read(self) -> Run {
        if self.input.len() == 0 {
            self.failed(BraincluckError::IOError(IoFault::UnexpectedEof))
        } else {
            Machine {
                tape: self.tape.store(byte_to_cell(self.input.first())),
                input: self.input.drop_first(),
                output: self.output,
            }.done()
        }
    }
}

/// The outcome of one instruction, or `None` when `fuel` does not suffice.
/// Only loops use fuel: each turn of a loop takes one unit, and its body
/// runs on what is left.
pub open spec fn exec_one(instruction: Instruction, machine: Machine, fuel: nat) -> Option<Run>
    decreases fuel, 0nat,
{
    match instruction {
        Instruction::MoveRight => Some(machine.with_tape(machine.tape.right()).done()),
        Instruction::MoveLeft => Some(machine.with_tape(machine.tape.left()).done()),
        Instruction::Increment => Some(machine.with_tape(machine.tape.increment()).done()),
        Instruction::Decrement => Some(machine.with_tape(machine.tape.decrement()).done()),
        Instruction::Output => Some(machine.write()),
        Instruction::Input => Some(machine.read()),
        Instruction::Loop(body) => {
            if machine.tape.current() == 0 {
                Some(machine.done())
            } else if fuel == 0 {
                None
            } else {
                match exec_all(body, machine, (fuel - 1) as nat) {
                    None => None,
                    Some(turn) => {
                        if turn.result is Err {
                            Some(turn)
                        } else {
                            exec_one(instruction, turn.state, (fuel - 1) as nat)
                        }
                    },
                }
            }
        },
    }
}

/// The outcome of an instruction sequence, run from left to right up to the
/// first error, or `None` when `fuel` does not suffice.
pub open spec fn exec_all(instructions: Seq<Instruction>, machine: Machine, fuel: nat) -> Option<
    Run,
>
    decreases fuel, 1 + instructions.len(),
{
    if instructions.len() == 0 {
        Some(machine.done())
    } else {
        match exec_one(instructions.first(), machine, fuel) {
            None => None,
            Some(head) => {
                if head.result is Err {
                    Some(head)
                } else {
                    exec_all(instructions.drop_first(), head.state, fuel)
                }
            },
        }
    }
}

/// Running `instructions` from `machine` comes to an end.
pub open spec fn terminates(instructions: Seq<Instruction>, machine: Machine) -> bool {
    exists|fuel: nat| (#[trigger] exec_all(instructions, machine, fuel)) is Some
}

/// How running `instructions` from `machine` ends, where it does end.
pub open spec fn run(instructions: Seq<Instruction>, machine: Machine) -> Run {
    exec_all(
        instructions,
        machine,
        choose|fuel: nat| (#[trigger] exec_all(instructions, machine, fuel)) is Some,
    ).unwrap()
}

/// Running the single instruction `instruction` from `machine` comes to an
/// end.
pub open spec fn terminates_one(instruction: Instruction, machine: Machine) -> bool {
    exists|fuel: nat| (#[trigger] exec_one(instruction, machine, fuel)) is Some
}

/// How running `instruction` from `machine` ends, where it does end.
pub open spec fn run_one(instruction: Instruction, machine: Machine) -> Run {
    exec_one(
        instruction,
        machine,
        choose|fuel: nat| (#[trigger] exec_one(instruction, machine, fuel)) is Some,
    ).unwrap()
}

/// The state after `turns` runs of `body` in a row, each from where the one
/// before ended.
pub open spec fn after_turns(body: Seq<Instruction>, machine: Machine, turns: nat) -> Machine
    decreases turns,
{
    if turns == 0 {
        machine
    } else {
        after_turns(body, run(body, machine).state, (turns - 1) as nat)
    }
}

/// It takes `turns` runs of `body`, no fewer, to bring the current cell to
/// zero: before each of them the cell is not zero and the run ends without
/// an error, and after the last the cell is zero.
pub open spec fn turns_to_zero(body: Seq<Instruction>, machine: Machine, turns: nat) -> bool
    decreases turns,
{
    if turns == 0 {
        machine.tape.current() == 0
    } else {
        &&& machine.tape.current() != 0
        &&& terminates(body, machine)
        &&& run(body, machine).result is Ok
        &&& turns_to_zero(body, run(body, machine).state, (turns - 1) as nat)
    }
}

/// Fuel beyond what suffices changes nothing: one instruction.
pub proof fn lemma_more_fuel_one(instruction: Instruction, machine: Machine, fuel: nat, more: nat)
    requires
        exec_one(instruction, machine, fuel) is Some,
        fuel <= more,
    ensures
        exec_one(instruction, machine, more) == exec_one(instruction, machine, fuel),
    decreases fuel, 0nat,
{
    match instruction {
        Instruction::Loop(body) => {
            if machine.tape.current() != 0 {
                lemma_more_fuel_all(body, machine, (fuel - 1) as nat, (more - 1) as nat);
                let turn = exec_all(body, machine, (fuel - 1) as nat).unwrap();
                if turn.result is Ok {
                    lemma_more_fuel_one(
                        instruction,
                        turn.state,
                        (fuel - 1) as nat,
                        (more - 1) as nat,
                    );
                }
            }
        },
        _ => {},
    }
}

/// Fuel beyond what suffices changes nothing: an instruction sequence.
pub proof fn lemma_more_fuel_all(
    instructions: Seq<Instruction>,
    machine: Machine,
    fuel: nat,
    more: nat,
)
    requires
        exec_all(instructions, machine, fuel) is Some,
        fuel <= more,
    ensures
        exec_all(instructions, machine, more) == exec_all(instructions, machine, fuel),
    decreases fuel, 1 + instructions.len(),
{
    if instructions.len() > 0 {
        lemma_more_fuel_one(instructions.first(), machine, fuel, more);
        let head = exec_one(instructions.first(), machine, fuel).unwrap();
        if head.result is Ok {
            lemma_more_fuel_all(instructions.drop_first(), head.state, fuel, more);
        }
    }
}

/// The outcome of a run does not depend on the fuel: whatever fuel
/// suffices gives the outcome that [`run`] names.
pub proof fn lemma_run_by_fuel(instructions: Seq<Instruction>, machine: Machine, fuel: nat)
    requires
        exec_all(instructions, machine, fuel) is Some,
    ensures
        terminates(instructions, machine),
        exec_all(instructions, machine, fuel) == Some(run(instructions, machine)),
{
    let chosen = choose|fuel: nat| (#[trigger] exec_all(instructions, machine, fuel)) is Some;
    if chosen <= fuel {
        lemma_more_fuel_all(instructions, machine, chosen, fuel);
    } else {
        lemma_more_fuel_all(instructions, machine, fuel, chosen);
    }
}

/// The outcome of one instruction does not depend on the fuel: whatever
/// fuel suffices gives the outcome that [`run_one`] names.
pub proof fn lemma_run_one_by_fuel(instruction: Instruction, machine: Machine, fuel: nat)
    requires
        exec_one(instruction, machine, fuel) is Some,
    ensures
        terminates_one(instruction, machine),
        exec_one(instruction, machine, fuel) == Some(run_one(instruction, machine)),
{
    let chosen = choose|fuel: nat| (#[trigger] exec_one(instruction, machine, fuel)) is Some;
    if chosen <= fuel {
        lemma_more_fuel_one(instruction, machine, chosen, fuel);
    } else {
        lemma_more_fuel_one(instruction, machine, fuel, chosen);
    }
}

/// An instruction that is no loop always ends, in one step.
pub proof fn lemma_simple_instruction(instruction: Instruction, machine: Machine)
    requires
        !(instruction is Loop),
    ensures
        terminates_one(instruction, machine),
        run_one(instruction, machine) == match instruction {
            Instruction::MoveRight => machine.with_tape(machine.tape.right()).done(),
            Instruction::MoveLeft => machine.with_tape(machine.tape.left()).done(),
            Instruction::Increment => machine.with_tape(machine.tape.increment()).done(),
            Instruction::Decrement => machine.with_tape(machine.tape.decrement()).done(),
            Instruction::Output => machine.write(),
            _ => machine.read(),
        },
{
    lemma_run_one_by_fuel(instruction, machine, 0);
}

/// The empty program ends at once and changes nothing.
pub proof fn lemma_run_empty(machine: Machine)
    ensures
        terminates(Seq::<Instruction>::empty(), machine),
        run(Seq::<Instruction>::empty(), machine) == machine.done(),
{
    lemma_run_by_fuel(Seq::<Instruction>::empty(), machine, 0);
}

/// A run goes through its instructions from left to right and stops at the
/// first error: it is the run of the first instruction, followed, where
/// that ended well, by the run of the rest.
pub proof fn lemma_run_sequence(instructions: Seq<Instruction>, machine: Machine)
    requires
        instructions.len() > 0,
        terminates(instructions, machine),
    ensures
        terminates_one(instructions.first(), machine),
        run_one(instructions.first(), machine).result is Err ==> run(instructions, machine)
            == run_one(instructions.first(), machine),
        run_one(instructions.first(), machine).result is Ok ==> {
            &&& terminates(instructions.drop_first(), run_one(instructions.first(), machine).state)
            &&& run(instructions, machine) == run(
                instructions.drop_first(),
                run_one(instructions.first(), machine).state,
            )
        },
{
    let fuel = choose|fuel: nat| (#[trigger] exec_all(instructions, machine, fuel)) is Some;
    lemma_run_one_by_fuel(instructions.first(), machine, fuel);
    let head = run_one(instructions.first(), machine);
    if head.result is Ok {
        lemma_run_by_fuel(instructions.drop_first(), head.state, fuel);
    }
}

/// A loop that is reached with the current cell at zero runs its body zero
/// times: it ends at once and changes nothing.
pub proof fn lemma_loop_skipped(body: Seq<Instruction>, machine: Machine)
    requires
        machine.tape.current() == 0,
    ensures
        terminates_one(Instruction::Loop(body), machine),
        run_one(Instruction::Loop(body), machine) == machine.done(),
{
    lemma_run_one_by_fuel(Instruction::Loop(body), machine, 0);
}

/// A loop that is reached with the current cell not at zero runs its body
/// once and then stands before the same test again: an error in the body
/// ends the loop, and otherwise the loop goes on from where the body ended.
pub proof fn lemma_loop_turn(body: Seq<Instruction>, machine: Machine)
    requires
        machine.tape.current() != 0,
        terminates_one(Instruction::Loop(body), machine),
    ensures
        terminates(body, machine),
        run(body, machine).result is Err ==> run_one(Instruction::Loop(body), machine) == run(
            body,
            machine,
        ),
        run(body, machine).result is Ok ==> {
            &&& terminates_one(Instruction::Loop(body), run(body, machine).state)
            &&& run_one(Instruction::Loop(body), machine) == run_one(
                Instruction::Loop(body),
                run(body, machine).state,
            )
        },
{
    let whole = Instruction::Loop(body);
    let fuel = choose|fuel: nat| (#[trigger] exec_one(whole, machine, fuel)) is Some;
    lemma_run_one_by_fuel(whole, machine, fuel);
    lemma_run_by_fuel(body, machine, (fuel - 1) as nat);
    let turn = run(body, machine);
    if turn.result is Ok {
        lemma_run_one_by_fuel(whole, turn.state, (fuel - 1) as nat);
    }
}

/// A loop that ends without an error leaves the current cell at zero, and
/// it has run its body exactly as many times as that took.
pub proof fn lemma_loop_runs_until_zero(body: Seq<Instruction>, machine: Machine) -> (turns: nat)
    requires
        terminates_one(Instruction::Loop(body), machine),
        run_one(Instruction::Loop(body), machine).result is Ok,
    ensures
        turns_to_zero(body, machine, turns),
        run_one(Instruction::Loop(body), machine) == after_turns(body, machine, turns).done(),
        run_one(Instruction::Loop(body), machine).state.tape.current() == 0,
{
    let whole = Instruction::Loop(body);
    let fuel = choose|fuel: nat| (#[trigger] exec_one(whole, machine, fuel)) is Some;
    lemma_run_one_by_fuel(whole, machine, fuel);
    lemma_loop_count(body, machine, fuel)
}

/// The turns of a loop that ends well, counted along the fuel it uses.
proof fn lemma_loop_count(body: Seq<Instruction>, machine: Machine, fuel: nat) -> (turns: nat)
    requires
        exec_one(Instruction::Loop(body), machine, fuel) is Some,
        exec_one(Instruction::Loop(body), machine, fuel).unwrap().result is Ok,
    ensures
        turns_to_zero(body, machine, turns),
        exec_one(Instruction::Loop(body), machine, fuel) == Some(
            after_turns(body, machine, turns).done(),
        ),
        after_turns(body, machine, turns).tape.current() == 0,
    decreases fuel,
{
    if machine.tape.current() == 0 {
        0
    } else {
        lemma_run_by_fuel(body, machine, (fuel - 1) as nat);
        let rest = lemma_loop_count(body, run(body, machine).state, (fuel - 1) as nat);
        rest + 1
    }
}

/// Where a number of error-free turns of the body brings the current cell
/// to zero, the loop ends after exactly those turns, in the state that they
/// lead to.
pub proof fn lemma_loop_ends_after(body: Seq<Instruction>, machine: Machine, turns: nat)
    requires
        turns_to_zero(body, machine, turns),
    ensures
        terminates_one(Instruction::Loop(body), machine),
        run_one(Instruction::Loop(body), machine) == after_turns(body, machine, turns).done(),
    decreases turns,
{
    let whole = Instruction::Loop(body);
    if turns == 0 {
        lemma_loop_skipped(body, machine);
    } else {
        let next = run(body, machine).state;
        lemma_loop_ends_after(body, next, (turns - 1) as nat);
        let inner = choose|fuel: nat| (#[trigger] exec_all(body, machine, fuel)) is Some;
        let outer = choose|fuel: nat| (#[trigger] exec_one(whole, next, fuel)) is Some;
        let fuel = if inner <= outer {
            outer
        } else {
            inner
        };
        lemma_more_fuel_all(body, machine, inner, fuel);
        lemma_more_fuel_one(whole, next, outer, fuel);
        lemma_run_one_by_fuel(whole, next, fuel);
        lemma_run_one_by_fuel(whole, machine, fuel + 1);
    }
}

/// The number of turns that a loop takes is fixed by where it starts.
pub proof fn lemma_turns_unique(body: Seq<Instruction>, machine: Machine, a: nat, b: nat)
    requires
        turns_to_zero(body, machine, a),
        turns_to_zero(body, machine, b),
    ensures
        a == b,
    decreases a,
{
    if a > 0 && b > 0 {
        lemma_turns_unique(body, run(body, machine).state, (a - 1) as nat, (b - 1) as nat);
    }
}

/// A run keeps the cursor of the tape on an existing cell: one instruction.
pub proof fn lemma_exec_one_keeps_wf(instruction: Instruction, machine: Machine, fuel: nat)
    requires
        machine.wf(),
        exec_one(instruction, machine, fuel) is Some,
    ensures
        exec_one(instruction, machine, fuel).unwrap().state.wf(),
    decreases fuel, 0nat,
{
    match instruction {
        Instruction::Loop(body) => {
            if machine.tape.current() != 0 {
                lemma_exec_all_keeps_wf(body, machine, (fuel - 1) as nat);
                let turn = exec_all(body, machine, (fuel - 1) as nat).unwrap();
                if turn.result is Ok {
                    lemma_exec_one_keeps_wf(instruction, turn.state, (fuel - 1) as nat);
                }
            }
        },
        _ => {},
    }
}

/// A run keeps the cursor of the tape on an existing cell: an instruction
/// sequence.
pub proof fn lemma_exec_all_keeps_wf(instructions: Seq<Instruction>, machine: Machine, fuel: nat)
    requires
        machine.wf(),
        exec_all(instructions, machine, fuel) is Some,
    ensures
        exec_all(instructions, machine, fuel).unwrap().state.wf(),
    decreases fuel, 1 + instructions.len(),
{
    if instructions.len() > 0 {
        lemma_exec_one_keeps_wf(instructions.first(), machine, fuel);
        let head = exec_one(instructions.first(), machine, fuel).unwrap();
        if head.result is Ok {
            lemma_exec_all_keeps_wf(instructions.drop_first(), head.state, fuel);
        }
    }
}

} // verus!
