//! The interpreter: a lexer, a compiled program, its jump table, and the
//! machine that executes it.

use crate::ir::{all_well_formed, compile, compile_spec, Instruction};
use crate::jumps::{
    balanced, first_unmatched_close, first_unmatched_open, is_jump_table, lemma_jump_table_unique,
    resolve, symmetric, CompileError,
};
use crate::lexer::{instructions_of, is_instruction, lemma_instructions_of_concat, Lexer};
use crate::machine::{
    fresh_state, input_event, jump_spec, run_spec, step_spec, Action, Event, MachineState,
    RuntimeFault, Termination, Trace,
};
use std::collections::HashMap;
use vstd::prelude::*;

verus! {

/// The number of cells on the tape.
pub const RAM_SIZE: usize = 100_000;

/// The whole machine: the registers and the tape, the program and its jump
/// table, and the lexer that the program is compiled from.
pub struct Interpreter {
    memory_pointer: usize,
    instruction_pointer: usize,
    ram: [u8; RAM_SIZE],
    program: Vec<Instruction>,
    jump_map: HashMap<usize, usize>,
    lexer: Lexer,
}

/// What an interpreter holds, as mathematical values.
pub struct InterpreterView {
    pub state: MachineState,
    pub program: Seq<Instruction>,
    pub jumps: Map<usize, usize>,
    pub lexer: Lexer,
}

impl View for Interpreter {
    type V = InterpreterView;

    closed spec fn view(&self) -> InterpreterView {
        InterpreterView {
            state: MachineState {
                instruction_pointer: self.instruction_pointer,
                memory_pointer: self.memory_pointer,
                tape: self.ram@,
            },
            program: self.program@,
            jumps: self.jump_map@,
            lexer: self.lexer,
        }
    }
}

/// What a bounded run over a known input stream did.
#[derive(Debug, PartialEq, Eq)]
pub struct Execution {
    /// The bytes written, in order.
    pub output: Vec<u8>,
    /// How many bytes of the input stream were read.
    pub consumed: usize,
    pub termination: Termination,
}

/// Whether interpreting `program` from `state` over `input` for at most
/// `fuel` steps can end with the jump table `jumps` and the run `trace`.
pub open spec fn is_run_of(
    program: Seq<Instruction>,
    state: MachineState,
    input: Seq<u8>,
    fuel: nat,
    jumps: Map<usize, usize>,
    trace: Trace,
) -> bool {
    &&& is_jump_table(program, jumps)
    &&& trace == run_spec(program, jumps, state, input, 0, Seq::empty(), fuel)
}

/// With the jump table of its program, a run never stops for want of a jump
/// target.
pub proof fn lemma_resolved_run_finds_its_targets(
    program: Seq<Instruction>,
    jumps: Map<usize, usize>,
    state: MachineState,
    input: Seq<u8>,
    consumed: nat,
    output: Seq<u8>,
    fuel: nat,
)
    requires
        is_jump_table(program, jumps),
    ensures
        run_spec(program, jumps, state, input, consumed, output, fuel).termination
            != Termination::Fault(RuntimeFault::MissingJumpTarget),
    decreases fuel,
{
    if state.instruction_pointer < program.len() && fuel > 0 {
        let reads = program[state.instruction_pointer as int] is Input;
        let (next, action) = step_spec(program, jumps, state, input_event(input, consumed));
        assert(program[state.instruction_pointer as int] is LoopOpen
            || program[state.instruction_pointer as int] is LoopClose ==> jumps.contains_key(
            state.instruction_pointer,
        ));
        match action {
            Action::Fault(_) => {},
            Action::WriteByte(byte) => {
                lemma_resolved_run_finds_its_targets(
                    program,
                    jumps,
                    next,
                    input,
                    consumed,
                    output.push(byte),
                    (fuel - 1) as nat,
                );
            },
            _ => {
                lemma_resolved_run_finds_its_targets(
                    program,
                    jumps,
                    next,
                    input,
                    if reads {
                        consumed + 1
                    } else {
                        consumed
                    },
                    output,
                    (fuel - 1) as nat,
                );
            },
        }
    }
}

/// Interpreting is deterministic: the same program, state and input stream
/// give the same jump table and the same run.
pub proof fn lemma_run_is_deterministic(
    program: Seq<Instruction>,
    state: MachineState,
    input: Seq<u8>,
    fuel: nat,
    first_jumps: Map<usize, usize>,
    first: Trace,
    second_jumps: Map<usize, usize>,
    second: Trace,
)
    requires
        is_run_of(program, state, input, fuel, first_jumps, first),
        is_run_of(program, state, input, fuel, second_jumps, second),
    ensures
        first_jumps == second_jumps,
        first == second,
{
    lemma_jump_table_unique(program, first_jumps, second_jumps);
}

/// Whether loading `source` into a new interpreter and interpreting it over
/// `input` for at most `fuel` steps can end with the jump table `jumps` and
/// the run `trace`.
pub open spec fn is_execution_of(
    source: Seq<char>,
    input: Seq<u8>,
    fuel: nat,
    jumps: Map<usize, usize>,
    trace: Trace,
) -> bool {
    is_run_of(
        compile_spec(instructions_of(source)),
        fresh_state(RAM_SIZE as nat),
        input,
        fuel,
        jumps,
        trace,
    )
}

/// Compiling and executing is deterministic: the same source and the same
/// input stream give the same jump table, the same output stream and the
/// same final state.
pub proof fn lemma_execution_is_deterministic(
    source: Seq<char>,
    input: Seq<u8>,
    fuel: nat,
    first_jumps: Map<usize, usize>,
    first: Trace,
    second_jumps: Map<usize, usize>,
    second: Trace,
)
    requires
        is_execution_of(source, input, fuel, first_jumps, first),
        is_execution_of(source, input, fuel, second_jumps, second),
    ensures
        first_jumps == second_jumps,
        first == second,
{
    lemma_run_is_deterministic(
        compile_spec(instructions_of(source)),
        fresh_state(RAM_SIZE as nat),
        input,
        fuel,
        first_jumps,
        first,
        second_jumps,
        second,
    );
}

impl Interpreter {
    /// The tape has [`RAM_SIZE`] cells, the memory pointer addresses one of
    /// them, and the lexer and every instruction of the program are well
    /// formed.
    pub open spec fn wf(&self) -> bool {
        &&& self@.state.tape.len() == RAM_SIZE
        &&& self@.state.wf()
        &&& self@.lexer.wf()
        &&& all_well_formed(self@.program)
    }

    /// An interpreter with no program, a tape of zeros and both pointers at 0.
    pub fn new() -> (interpreter: Interpreter)
        ensures
            interpreter.wf(),
            interpreter@.state == fresh_state(RAM_SIZE as nat),
            interpreter@.program == Seq::<Instruction>::empty(),
            interpreter@.jumps == Map::<usize, usize>::empty(),
            interpreter@.lexer.content() == Seq::<char>::empty(),
            interpreter@.lexer.position() == 0,
    {
        let interpreter = Interpreter {
            memory_pointer: 0,
            instruction_pointer: 0,
            ram: [0;RAM_SIZE],
            program: Vec::new(),
            jump_map: HashMap::new(),
            lexer: Lexer::new(),
        };
        assert(interpreter@.state.tape =~= fresh_state(RAM_SIZE as nat).tape);
        interpreter
    }

    /// Hands `source` to the lexer and appends what it compiles to to the
    /// program. The jump table is left as it is.
    pub fn load_program(&mut self, source: &str)
        requires
            old(self).wf(),
        ensures
            final(self).wf(),
            final(self)@.state == old(self)@.state,
            final(self)@.jumps == old(self)@.jumps,
            final(self)@.lexer.content() == old(self)@.lexer.content() + source@,
            final(self)@.lexer.position() == final(self)@.lexer.content().len(),
            final(self)@.program == old(self)@.program + compile_spec(
                old(self)@.lexer.pending() + instructions_of(source@),
            ),
    {
        proof {
            let text = self.lexer.content();
            let position = self.lexer.position() as int;
            assert((text + source@).skip(position) =~= text.skip(position) + source@);
            lemma_instructions_of_concat(text.skip(position), source@);
        }
        self.lexer.fill(source);
        let mut compiled = compile(&mut self.lexer);
        self.program.append(&mut compiled);
    }

    /// Pairs the loop brackets of the program and stores the jump table. A
    /// program with an unmatched bracket is refused and nothing changes.
    pub fn precompute_jumps(&mut self) -> (result: Result<(), CompileError>)
        requires
            old(self).wf(),
        ensures
            final(self).wf(),
            final(self)@.state == old(self)@.state,
            final(self)@.program == old(self)@.program,
            final(self)@.lexer == old(self)@.lexer,
            result is Ok <==> balanced(old(self)@.program),
            match result {
                Ok(_) => is_jump_table(old(self)@.program, final(self)@.jumps) && symmetric(
                    final(self)@.jumps,
                ),
                Err(error) => {
                    &&& final(self)@.jumps == old(self)@.jumps
                    &&& match error {
                        CompileError::UnmatchedLoopClose { address } => first_unmatched_close(
                            old(self)@.program,
                            address as int,
                        ),
                        CompileError::UnmatchedLoopOpen { address } => first_unmatched_open(
                            old(self)@.program,
                            address as int,
                        ),
                    }
                },
            },
    {
        match resolve(&self.program) {
            Ok(table) => {
                self.jump_map = table;
                Ok(())
            },
            Err(error) => Err(error),
        }
    }

    /// Takes the jump that stands at the current instruction.
    fn jump(&mut self) -> (action: Action)
        requires
            old(self).wf(),
        ensures
            final(self).wf(),
            final(self)@.program == old(self)@.program,
            final(self)@.jumps == old(self)@.jumps,
            final(self)@.lexer == old(self)@.lexer,
            (final(self)@.state, action) == jump_spec(old(self)@.jumps, old(self)@.state),
    {
        broadcast use vstd::std_specs::hash::group_hash_axioms;

        match self.jump_map.get(&self.instruction_pointer) {
            Some(target) => {
                self.instruction_pointer = *target;
                Action::Continue
            },
            None => Action::Fault(RuntimeFault::MissingJumpTarget),
        }
    }

    /// Executes the instruction under the instruction pointer and says what
    /// the caller has to do before the next step. The caller passes
    /// [`Event::Resume`], except in answer to [`Action::ReadByte`]: then it
    /// passes the byte it read, or [`Event::EndOfInput`]. Only an `Input`
    /// instruction looks at the event.
    pub fn step(&mut self, event: Event) -> (action: Action)
        requires
            old(self).wf(),
        ensures
            final(self).wf(),
            final(self)@.program == old(self)@.program,
            final(self)@.jumps == old(self)@.jumps,
            final(self)@.lexer == old(self)@.lexer,
            (final(self)@.state, action) == step_spec(
                old(self)@.program,
                old(self)@.jumps,
                old(self)@.state,
                event,
            ),
    {
        if self.instruction_pointer >= self.program.len() {
            return Action::Halt;
        }
        let cell = self.ram[self.memory_pointer];
        let mut action = Action::Continue;
        match self.program[self.instruction_pointer] {
            Instruction::PointerIncrement(n) => {
                if n as usize >= RAM_SIZE - self.memory_pointer {
                    return Action::Fault(RuntimeFault::PointerOutOfBounds);
                }
                self.memory_pointer += n as usize;
            },
            Instruction::PointerDecrement(n) => {
                if n as usize > self.memory_pointer {
                    return Action::Fault(RuntimeFault::PointerOutOfBounds);
                }
                self.memory_pointer -= n as usize;
            },
            Instruction::CellIncrement(n) => {
                self.ram[self.memory_pointer] = cell.wrapping_add(n);
            },
            Instruction::CellDecrement(n) => {
                self.ram[self.memory_pointer] = cell.wrapping_sub(n);
            },
            Instruction::Output => {
                action = Action::WriteByte(cell);
            },
            Instruction::Input => match event {
                Event::Resume => {
                    return Action::ReadByte;
                },
                Event::InputByte(byte) => {
                    self.ram[self.memory_pointer] = byte;
                },
                Event::EndOfInput => {
                    return Action::Fault(RuntimeFault::InputExhausted);
                },
            },
            Instruction::LoopOpen => {
                if cell == 0 {
                    return self.jump();
                }
            },
            Instruction::LoopClose => {
                if cell != 0 {
                    return self.jump();
                }
            },
        }
        self.instruction_pointer += 1;
        action
    }

    /// Pairs the loop brackets, then runs the program from the current state
    /// for at most `max_steps` steps, with `input` as the input stream.
    /// A program with an unmatched bracket is refused before anything runs.
    pub fn interpret(&mut self, input: &[u8], max_steps: usize) -> (result: Result<
        Execution,
        CompileError,
    >)
        requires
            old(self).wf(),
        ensures
            final(self).wf(),
            final(self)@.program == old(self)@.program,
            final(self)@.lexer == old(self)@.lexer,
            result is Ok <==> balanced(old(self)@.program),
            match result {
                Ok(execution) => {
                    &&& is_run_of(
                        old(self)@.program,
                        old(self)@.state,
                        input@,
                        max_steps as nat,
                        final(self)@.jumps,
                        (Trace {
                            state: final(self)@.state,
                            consumed: execution.consumed as nat,
                            output: execution.output@,
                            termination: execution.termination,
                        }),
                    )
                    &&& execution.consumed <= input.len()
                    &&& execution.termination != Termination::Fault(
                        RuntimeFault::MissingJumpTarget,
                    )
                },
                Err(error) => {
                    &&& final(self)@.state == old(self)@.state
                    &&& final(self)@.jumps == old(self)@.jumps
                    &&& match error {
                        CompileError::UnmatchedLoopClose { address } => first_unmatched_close(
                            old(self)@.program,
                            address as int,
                        ),
                        CompileError::UnmatchedLoopOpen { address } => first_unmatched_open(
                            old(self)@.program,
                            address as int,
                        ),
                    }
                },
            },
    {
        match self.precompute_jumps() {
            Err(error) => {
                return Err(error);
            },
            Ok(_) => {},
        }
        let ghost jumps = self@.jumps;
        let ghost whole = run_spec(
            self@.program,
            jumps,
            self@.state,
            input@,
            0,
            Seq::empty(),
            max_steps as nat,
        );
        proof {
            lemma_resolved_run_finds_its_targets(
                self@.program,
                jumps,
                self@.state,
                input@,
                0,
                Seq::empty(),
                max_steps as nat,
            );
        }
        let mut output: Vec<u8> = Vec::new();
        let mut consumed: usize = 0;
        let mut remaining: usize = max_steps;
        while remaining > 0
            invariant
                self.wf(),
                self@.program == old(self)@.program,
                self@.lexer == old(self)@.lexer,
                self@.jumps == jumps,
                balanced(self@.program),
                whole.termination != Termination::Fault(RuntimeFault::MissingJumpTarget),
                is_jump_table(self@.program, jumps),
                consumed <= input.len(),
                whole == run_spec(
                    old(self)@.program,
                    jumps,
                    old(self)@.state,
                    input@,
                    0,
                    Seq::empty(),
                    max_steps as nat,
                ),
                whole == run_spec(
                    self@.program,
                    jumps,
                    self@.state,
                    input@,
                    consumed as nat,
                    output@,
                    remaining as nat,
                ),
            decreases remaining,
        {
            let event = if consumed < input.len() {
                Event::InputByte(input[consumed])
            } else {
                Event::EndOfInput
            };
            let reads = self.instruction_pointer < self.program.len()
                && self.program[self.instruction_pointer] == Instruction::Input;
            match self.step(event) {
                Action::Halt => {
                    return Ok(Execution { output, consumed, termination: Termination::Finished });
                },
                Action::Fault(fault) => {
                    return Ok(
                        Execution { output, consumed, termination: Termination::Fault(fault) },
                    );
                },
                Action::WriteByte(byte) => {
                    output.push(byte);
                },
                _ => {
                    if reads {
                        consumed += 1;
                    }
                },
            }
            remaining -= 1;
        }
        let termination = if self.instruction_pointer >= self.program.len() {
            Termination::Finished
        } else {
            Termination::StepLimit
        };
        Ok(Execution { output, consumed, termination })
    }

    /// The address of the current cell.
    pub fn memory_pointer(&self) -> (address: usize)
        ensures
            address == self@.state.memory_pointer,
    {
        self.memory_pointer
    }

    /// The address of the instruction to execute next.
    pub fn instruction_pointer(&self) -> (address: usize)
        ensures
            address == self@.state.instruction_pointer,
    {
        self.instruction_pointer
    }

    /// The cell at `address`, if the tape has one there.
    pub fn cell(&self, address: usize) -> (value: Option<u8>)
        ensures
            value == if address < RAM_SIZE {
                Some(self@.state.tape[address as int])
            } else {
                None
            },
    {
        if address < RAM_SIZE {
            Some(self.ram[address])
        } else {
            None
        }
    }

    /// The compiled program.
    pub fn program(&self) -> (program: &Vec<Instruction>)
        ensures
            program@ == self@.program,
    {
        &self.program
    }

    /// Where the jump table sends `address`, if it holds that address.
    pub fn jump_target(&self, address: usize) -> (target: Option<usize>)
        ensures
            target == if self@.jumps.contains_key(address) {
                Some(self@.jumps[address])
            } else {
                None
            },
    {
        broadcast use vstd::std_specs::hash::group_hash_axioms;

        match self.jump_map.get(&address) {
            Some(target) => Some(*target),
            None => None,
        }
    }
}

/// Loads `source` into a new interpreter and interprets it over `input` for
/// at most `max_steps` steps. The interpreter comes back with the result, so
/// that the tape and the pointers can be looked at.
pub fn execute(source: &str, input: &[u8], max_steps: usize) -> (result: (
    Interpreter,
    Result<Execution, CompileError>,
))
    ensures
        result.0.wf(),
        result.0@.program == compile_spec(instructions_of(source@)),
        result.1 is Ok <==> balanced(compile_spec(instructions_of(source@))),
        match result.1 {
            Ok(execution) => is_execution_of(
                source@,
                input@,
                max_steps as nat,
                result.0@.jumps,
                (Trace {
                    state: result.0@.state,
                    consumed: execution.consumed as nat,
                    output: execution.output@,
                    termination: execution.termination,
                }),
            ),
            Err(error) => {
                &&& result.0@.state == fresh_state(RAM_SIZE as nat)
                &&& result.0@.jumps == Map::<usize, usize>::empty()
                &&& match error {
                    CompileError::UnmatchedLoopClose { address } => first_unmatched_close(
                        result.0@.program,
                        address as int,
                    ),
                    CompileError::UnmatchedLoopOpen { address } => first_unmatched_open(
                        result.0@.program,
                        address as int,
                    ),
                }
            },
        },
{
    let mut interpreter = Interpreter::new();
    proof {
        let nothing = Seq::<char>::empty();
        assert(nothing.skip(0) =~= nothing);
        nothing.lemma_filter_len(|c: char| is_instruction(c));
        assert(interpreter@.lexer.pending() =~= nothing);
        assert(nothing + instructions_of(source@) =~= instructions_of(source@));
    }
    interpreter.load_program(source);
    assert(interpreter@.program =~= compile_spec(instructions_of(source@)));
    let outcome = interpreter.interpret(input, max_steps);
    (interpreter, outcome)
}

} // verus!
