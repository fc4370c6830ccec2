//! The instruction tree that the parser produces and the interpreter walks.
use vstd::prelude::*;

verus! {

/// One instruction of a program. A `Jump` owns the body of a loop.
#[derive(Debug, PartialEq, Eq)]
pub enum Command {
    Right,
    Left,
    Increment,
    Decrement,
    Output,
    Input,
    Jump(Vec<Command>),
}

/// The mathematical instruction tree that a [`Command`] stands for.
pub enum Instruction {
    MoveRight,
    MoveLeft,
    Increment,
    Decrement,
    Output,
    Input,
    Loop(Seq<Instruction>),
}

/// The instruction sequence that a sequence of commands stands for.
pub open spec fn program(commands: Seq<Command>) -> Seq<Instruction>
    decreases commands,
{
    if commands.len() == 0 {
        Seq::empty()
    } else {
        program(commands.drop_last()).push(commands.last()@)
    }
}

/// Appending a command appends the instruction that it stands for.
pub proof fn lemma_program_push(commands: Seq<Command>, command: Command)
    ensures
        program(commands.push(command)) == program(commands).push(command@),
{
    assert(commands.push(command).drop_last() == commands);
}

/// The instructions of a command sequence stand one for one for its
/// commands.
pub proof fn lemma_program_index(commands: Seq<Command>)
    ensures
        program(commands).len() == commands.len(),
        forall|i: int|
            0 <= i < commands.len() ==> (#[trigger] program(commands)[i]) == commands[i]@,
    decreases commands.len(),
{
    if commands.len() > 0 {
        let front = commands.drop_last();
        lemma_program_index(front);
        assert(program(commands) == program(front).push(commands.last()@));
        assert forall|i: int| 0 <= i < commands.len() implies (#[trigger] program(commands)[i])
            == commands[i]@ by {
            if i < front.len() {
                assert(program(front)[i] == front[i]@);
            }
        }
    } else {
        assert(program(commands) == Seq::<Instruction>::empty());
    }
}

impl View for Command {
    type V = Instruction;

    open spec fn view(&self) -> Instruction
        decreases self,
    {
        match self {
            Command::Right => Instruction::MoveRight,
            Command::Left => Instruction::MoveLeft,
            Command::Increment => Instruction::Increment,
            Command::Decrement => Instruction::Decrement,
            Command::Output => Instruction::Output,
            Command::Input => Instruction::Input,
            Command::Jump(body) => Instruction::Loop(program(body@)),
        }
    }
}

impl Clone for Command {
    /// A copy that stands for the same instruction.
    fn clone(&self) -> (copy: Self)
        ensures
            copy@ == self@,
        decreases self,
    {
        match self {
            Command::Right => Command::Right,
            Command::Left => Command::Left,
            Command::Increment => Command::Increment,
            Command::Decrement => Command::Decrement,
            Command::Output => Command::Output,
            Command::Input => Command::Input,
            Command::Jump(body) => {
                let mut copy: Vec<Command> = Vec::new();
                let mut i: usize = 0;
                proof {
                    assert(body@.take(0) == Seq::<Command>::empty());
                    assert(decreases_to!(*self => *body));
                }
                while i < body.len()
                    invariant
                        0 <= i <= body@.len(),
                        decreases_to!(*self => *body),
                        program(copy@) == program(body@.take(i as int)),
                    decreases body@.len() - i,
                {
                    proof {
                        assert(decreases_to!(*body => body[i as int]));
                    }
                    let item = body[i].clone();
                    proof {
                        lemma_program_push(copy@, item);
                        lemma_program_push(body@.take(i as int), body@[i as int]);
                        assert(body@.take(i + 1) == body@.take(i as int).push(body@[i as int]));
                    }
                    copy.push(item);
                    i = i + 1;
                }
                proof {
                    assert(body@.take(i as int) == body@);
                }
                Command::Jump(copy)
            },
        }
    }
}

} // verus!
