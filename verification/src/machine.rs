//! The semantics of execution, as functions on a mathematical machine state.
//!
//! [`step_spec`] is the transition function of the machine: it takes a state
//! and an event from the outside and gives the next state and what the
//! outside has to do. [`run_spec`] iterates it over an input stream that is
//! known in advance.
//!
//! A read from an exhausted input stream is a fault; no byte is substituted.

use crate::ir::Instruction;
use vstd::prelude::*;

verus! {

/// Why execution stopped before the end of the program.
#[derive(Clone, Copy, Debug, PartialEq, Eq, Structural)]
pub enum RuntimeFault {
    /// A pointer move would leave the tape.
    PointerOutOfBounds,
    /// An `Input` instruction found the input stream at its end.
    InputExhausted,
    /// A taken jump stands at an address that the jump table does not hold.
    MissingJumpTarget,
}

/// What the outside hands to the machine before a step.
#[derive(Clone, Copy, Debug, PartialEq, Eq, Structural)]
pub enum Event {
    /// Nothing: go on.
    Resume,
    /// The byte that was read in answer to [`Action::ReadByte`].
    InputByte(u8),
    /// In answer to [`Action::ReadByte`]: the input stream is at its end.
    EndOfInput,
}

/// What the outside has to do after a step.
#[derive(Clone, Copy, Debug, PartialEq, Eq, Structural)]
pub enum Action {
    /// Nothing: step again.
    Continue,
    /// Write this byte to the output stream and make it observable, then
    /// step again.
    WriteByte(u8),
    /// Read one byte from the input stream and step again with
    /// [`Event::InputByte`] or [`Event::EndOfInput`].
    ReadByte,
    /// The instruction pointer is past the last instruction.
    Halt,
    /// Execution cannot go on.
    Fault(RuntimeFault),
}

/// How a bounded run ended.
#[derive(Clone, Copy, Debug, PartialEq, Eq, Structural)]
pub enum Termination {
    /// The instruction pointer went past the last instruction.
    Finished,
    /// The allowed number of steps was used up first.
    StepLimit,
    /// Execution could not go on.
    Fault(RuntimeFault),
}

/// The registers and the tape.
pub struct MachineState {
    pub instruction_pointer: usize,
    pub memory_pointer: usize,
    pub tape: Seq<u8>,
}

/// The sum of a cell and a count, modulo 256.
pub open spec fn cell_add(cell: u8, count: u8) -> u8 {
    ((cell + count) % 256) as u8
}

/// The difference of a cell and a count, modulo 256.
pub open spec fn cell_sub(cell: u8, count: u8) -> u8 {
    ((cell - count) % 256) as u8
}

impl MachineState {
    /// The memory pointer addresses a cell of the tape.
    pub open spec fn wf(self) -> bool {
        self.memory_pointer < self.tape.len()
    }

    /// The cell under the memory pointer.
    pub open spec fn cell(self) -> u8 {
        self.tape[self.memory_pointer as int]
    }

    /// This state with the instruction pointer at `address`.
    pub open spec fn at(self, address: usize) -> MachineState {
        MachineState { instruction_pointer: address, ..self }
    }

    /// This state with the instruction pointer one further.
    pub open spec fn advanced(self) -> MachineState {
        self.at((self.instruction_pointer + 1) as usize)
    }

    /// This state with the memory pointer at `address`.
    pub open spec fn pointing_to(self, address: usize) -> MachineState {
        MachineState { memory_pointer: address, ..self }
    }

    /// This state with `value` in the cell under the memory pointer.
    pub open spec fn storing(self, value: u8) -> MachineState {
        MachineState { tape: self.tape.update(self.memory_pointer as int, value), ..self }
    }
}

/// The state before the first step: both pointers at 0 over `cells` cells
/// that hold 0.
pub open spec fn fresh_state(cells: nat) -> MachineState {
    MachineState {
        instruction_pointer: 0,
        memory_pointer: 0,
        tape: Seq::new(cells, |i: int| 0u8),
    }
}

/// The outcome of a taken jump from the current instruction.
pub open spec fn jump_spec(jumps: Map<usize, usize>, state: MachineState) -> (
    MachineState,
    Action,
) {
    if jumps.contains_key(state.instruction_pointer) {
        (state.at(jumps[state.instruction_pointer]), Action::Continue)
    } else {
        (state, Action::Fault(RuntimeFault::MissingJumpTarget))
    }
}

/// One step of the machine. Only an `Input` instruction looks at `event`. A
/// fault, a halt and a request for input leave the state as it is. A taken
/// jump lands on the partner bracket, which tests the cell again on the next
/// step and then falls through.
pub open spec fn step_spec(
    program: Seq<Instruction>,
    jumps: Map<usize, usize>,
    state: MachineState,
    event: Event,
) -> (MachineState, Action) {
    if state.instruction_pointer >= program.len() {
        (state, Action::Halt)
    } else {
        match program[state.instruction_pointer as int] {
            Instruction::PointerIncrement(n) => if state.memory_pointer + n < state.tape.len() {
                (
                    state.pointing_to((state.memory_pointer + n) as usize).advanced(),
                    Action::Continue,
                )
            } else {
                (state, Action::Fault(RuntimeFault::PointerOutOfBounds))
            },
            Instruction::PointerDecrement(n) => if n <= state.memory_pointer {
                (
                    state.pointing_to((state.memory_pointer - n) as usize).advanced(),
                    Action::Continue,
                )
            } else {
                (state, Action::Fault(RuntimeFault::PointerOutOfBounds))
            },
            Instruction::CellIncrement(n) => (
                state.storing(cell_add(state.cell(), n)).advanced(),
                Action::Continue,
            ),
            Instruction::CellDecrement(n) => (
                state.storing(cell_sub(state.cell(), n)).advanced(),
                Action::Continue,
            ),
            Instruction::Output => (state.advanced(), Action::WriteByte(state.cell())),
            Instruction::Input => match event {
                Event::Resume => (state, Action::ReadByte),
                Event::InputByte(byte) => (state.storing(byte).advanced(), Action::Continue),
                Event::EndOfInput => (state, Action::Fault(RuntimeFault::InputExhausted)),
            },
            Instruction::LoopOpen => if state.cell() == 0 {
                jump_spec(jumps, state)
            } else {
                (state.advanced(), Action::Continue)
            },
            Instruction::LoopClose => if state.cell() != 0 {
                jump_spec(jumps, state)
            } else {
                (state.advanced(), Action::Continue)
            },
        }
    }
}

/// A step keeps the tape at its length and the memory pointer on the tape.
pub proof fn lemma_step_stays_on_the_tape(
    program: Seq<Instruction>,
    jumps: Map<usize, usize>,
    state: MachineState,
    event: Event,
)
    requires
        state.wf(),
    ensures
        step_spec(program, jumps, state, event).0.wf(),
        step_spec(program, jumps, state, event).0.tape.len() == state.tape.len(),
{
}

/// Where a bounded run over a known input stream stands.
pub struct Trace {
    pub state: MachineState,
    /// How many bytes of the input stream were read.
    pub consumed: nat,
    /// The bytes written so far.
    pub output: Seq<u8>,
    pub termination: Termination,
}

/// The event that answers a request for input when `consumed` bytes of
/// `input` are used up.
pub open spec fn input_event(input: Seq<u8>, consumed: nat) -> Event {
    if consumed < input.len() {
        Event::InputByte(input[consumed as int])
    } else {
        Event::EndOfInput
    }
}

/// Runs the machine from `state` for at most `fuel` steps, reading from
/// `input` past its first `consumed` bytes and writing behind `output`.
pub open spec fn run_spec(
    program: Seq<Instruction>,
    jumps: Map<usize, usize>,
    state: MachineState,
    input: Seq<u8>,
    consumed: nat,
    output: Seq<u8>,
    fuel: nat,
) -> Trace
    decreases fuel,
{
    if state.instruction_pointer >= program.len() {
        Trace { state, consumed, output, termination: Termination::Finished }
    } else if fuel == 0 {
        Trace { state, consumed, output, termination: Termination::StepLimit }
    } else {
        let reads = program[state.instruction_pointer as int] is Input;
        let (next, action) = step_spec(program, jumps, state, input_event(input, consumed));
        match action {
            Action::Fault(fault) => Trace {
                state,
                consumed,
                output,
                termination: Termination::Fault(fault),
            },
            Action::WriteByte(byte) => run_spec(
                program,
                jumps,
                next,
                input,
                consumed,
                output.push(byte),
                (fuel - 1) as nat,
            ),
            _ => run_spec(
                program,
                jumps,
                next,
                input,
                if reads {
                    consumed + 1
                } else {
                    consumed
                },
                output,
                (fuel - 1) as nat,
            ),
        }
    }
}

/// A run that ended at the end of the program or with a fault ends in the
/// same way when it is allowed more steps.
pub proof fn lemma_run_needs_no_more_fuel(
    program: Seq<Instruction>,
    jumps: Map<usize, usize>,
    state: MachineState,
    input: Seq<u8>,
    consumed: nat,
    output: Seq<u8>,
    fuel: nat,
    more: nat,
)
    requires
        fuel <= more,
        run_spec(program, jumps, state, input, consumed, output, fuel).termination
            != Termination::StepLimit,
    ensures
        run_spec(program, jumps, state, input, consumed, output, more) == run_spec(
            program,
            jumps,
            state,
            input,
            consumed,
            output,
            fuel,
        ),
    decreases fuel,
{
    if state.instruction_pointer < program.len() && fuel > 0 {
        let reads = program[state.instruction_pointer as int] is Input;
        let (next, action) = step_spec(program, jumps, state, input_event(input, consumed));
        match action {
            Action::Fault(_) => {},
            Action::WriteByte(byte) => {
                lemma_run_needs_no_more_fuel(
                    program,
                    jumps,
                    next,
                    input,
                    consumed,
                    output.push(byte),
                    (fuel - 1) as nat,
                    (more - 1) as nat,
                );
            },
            _ => {
                lemma_run_needs_no_more_fuel(
                    program,
                    jumps,
                    next,
                    input,
                    if reads {
                        consumed + 1
                    } else {
                        consumed
                    },
                    output,
                    (fuel - 1) as nat,
                    (more - 1) as nat,
                );
            },
        }
    }
}

/// A run of `first + second` steps is a run of `first` steps followed, if
/// the step limit stopped it, by a run of `second` steps from where it
/// stood.
pub proof fn lemma_run_resumes(
    program: Seq<Instruction>,
    jumps: Map<usize, usize>,
    state: MachineState,
    input: Seq<u8>,
    consumed: nat,
    output: Seq<u8>,
    first: nat,
    second: nat,
)
    ensures
        ({
            let part = run_spec(program, jumps, state, input, consumed, output, first);
            run_spec(program, jumps, state, input, consumed, output, first + second)
                == if part.termination == Termination::StepLimit {
                run_spec(program, jumps, part.state, input, part.consumed, part.output, second)
            } else {
                part
            }
        }),
    decreases first,
{
    if state.instruction_pointer < program.len() && first > 0 {
        let reads = program[state.instruction_pointer as int] is Input;
        let (next, action) = step_spec(program, jumps, state, input_event(input, consumed));
        match action {
            Action::Fault(_) => {},
            Action::WriteByte(byte) => {
                lemma_run_resumes(
                    program,
                    jumps,
                    next,
                    input,
                    consumed,
                    output.push(byte),
                    (first - 1) as nat,
                    second,
                );
            },
            _ => {
                lemma_run_resumes(
                    program,
                    jumps,
                    next,
                    input,
                    if reads {
                        consumed + 1
                    } else {
                        consumed
                    },
                    output,
                    (first - 1) as nat,
                    second,
                );
            },
        }
    }
}

/// Cell arithmetic wraps around at both ends, and subtracting a count undoes
/// adding it.
pub proof fn lemma_cell_arithmetic_wraps(cell: u8, count: u8)
    ensures
        cell_add(255, 1) == 0,
        cell_sub(0, 1) == 255,
        cell_add(cell, count) == (cell + count) % 256,
        cell_sub(cell, count) == (cell - count) % 256,
        cell_sub(cell_add(cell, count), count) == cell,
        cell_add(cell_sub(cell, count), count) == cell,
{
}

} // verus!
