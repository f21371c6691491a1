//! Run-length collapsing does not change what a program does.
//!
//! A program and its uncollapsed form, the one with an instruction of count 1
//! for every symbol, are run side by side. Whenever the program has executed
//! an instruction, the uncollapsed form has executed the instructions that
//! stand for it, and both have the same memory pointer, the same tape, and
//! have read and written the same. So both end in the same way. Where both
//! fault on a pointer move, the program stops before the whole move and the
//! uncollapsed form in the middle of it: then the memory pointers differ,
//! and nothing else.

use crate::expansion::{
    expanded, expanded_address, lemma_expanded_ends, lemma_expanded_instruction,
    lemma_expanded_is_no_shorter, lemma_expanded_jump,
};
use crate::ir::{
    all_well_formed, compile_spec, expand_spec, instruction_for, is_repeatable,
    lemma_compile_is_lossless, lemma_compile_well_formed, symbol_of, width_of, Instruction,
};
use crate::jumps::is_jump_table;
use crate::lexer::all_instructions;
use crate::machine::{
    input_event, lemma_run_needs_no_more_fuel, run_spec, step_spec, Action, Event, MachineState,
    RuntimeFault, Termination, Trace,
};
use vstd::prelude::*;

verus! {

/// Every symbol is one of the four pointer and cell operations.
pub open spec fn all_repeatable(tokens: Seq<char>) -> bool {
    forall|i: int| 0 <= i < tokens.len() ==> is_repeatable(#[trigger] tokens[i])
}

/// Every instruction is one of the four pointer and cell operations.
pub open spec fn is_straight_line(program: Seq<Instruction>) -> bool {
    forall|i: int| 0 <= i < program.len() ==> is_repeatable(symbol_of(#[trigger] program[i]))
}

/// Two runs ended in the same way, read and wrote the same, and left the
/// same tape; unless a pointer move stopped them, they left the same memory
/// pointer too.
pub open spec fn same_outcome(first: Trace, second: Trace) -> bool {
    &&& first.termination == second.termination
    &&& first.state.tape == second.state.tape
    &&& first.output == second.output
    &&& first.consumed == second.consumed
    &&& first.termination != Termination::Fault(RuntimeFault::PointerOutOfBounds)
        ==> first.state.memory_pointer == second.state.memory_pointer
}

/// Whether `run` ended, be it at the end of its program or with a fault.
pub open spec fn ended(run: Trace) -> bool {
    run.termination != Termination::StepLimit
}

/// The runs of two programs from `state` over `input` go the same way: if
/// the narrow one ends within `fuel` steps, the wide one ends within 255
/// times as many; if the wide one ends within `wide_fuel` steps, so does the
/// narrow one; and where both end, it is with the same outcome.
pub open spec fn run_alike(
    narrow: Seq<Instruction>,
    jumps: Map<usize, usize>,
    wide: Seq<Instruction>,
    wide_jumps: Map<usize, usize>,
    state: MachineState,
    input: Seq<u8>,
    fuel: nat,
    wide_fuel: nat,
) -> bool {
    let nothing = Seq::<u8>::empty();
    let narrow_run = run_spec(narrow, jumps, state, input, 0, nothing, fuel);
    let wide_run = run_spec(wide, wide_jumps, state, input, 0, nothing, wide_fuel);
    &&& ended(narrow_run) ==> ended(
        run_spec(wide, wide_jumps, state, input, 0, nothing, 255 * fuel),
    )
    &&& ended(wide_run) ==> ended(run_spec(narrow, jumps, state, input, 0, nothing, wide_fuel))
    &&& ended(narrow_run) && ended(wide_run) ==> same_outcome(narrow_run, wide_run)
}

/// Wherever the program has a bracket, `jumps` sends it to an address of the
/// program, and `wide_jumps` sends its address in the uncollapsed form to
/// where that address lies in the uncollapsed form.
pub open spec fn jumps_agree(
    program: Seq<Instruction>,
    jumps: Map<usize, usize>,
    wide_jumps: Map<usize, usize>,
) -> bool {
    forall|a: usize|
        a < program.len() && (program[a as int] is LoopOpen || program[a as int] is LoopClose)
            ==> {
            &&& #[trigger] jumps.contains_key(a)
            &&& jumps[a] < program.len()
            &&& wide_jumps.contains_key(expanded_address(program, a as int) as usize)
            &&& wide_jumps[expanded_address(program, a as int) as usize] == expanded_address(
                program,
                jumps[a] as int,
            )
        }
}

/// What `count` repetitions of the operation `symbol` make of the memory
/// pointer and the tape, or `None` if they move the pointer off the tape.
#[verifier::opaque]
spec fn repeated(symbol: char, count: nat, state: MachineState) -> Option<MachineState> {
    if symbol == '>' {
        if state.memory_pointer + count < state.tape.len() {
            Some(state.pointing_to((state.memory_pointer + count) as usize))
        } else {
            None
        }
    } else if symbol == '<' {
        if count <= state.memory_pointer {
            Some(state.pointing_to((state.memory_pointer - count) as usize))
        } else {
            None
        }
    } else if symbol == '+' {
        Some(state.storing(((state.cell() + count) % 256) as u8))
    } else {
        Some(state.storing(((state.cell() - count) % 256) as u8))
    }
}

/// One instruction that stands for `count` symbols does what `repeated`
/// says and moves on by one address.
proof fn lemma_collapsed_step(
    program: Seq<Instruction>,
    jumps: Map<usize, usize>,
    state: MachineState,
    event: Event,
    symbol: char,
    count: nat,
)
    requires
        is_repeatable(symbol),
        count <= 255,
        state.wf(),
        state.tape.len() <= usize::MAX,
        state.instruction_pointer < program.len() <= usize::MAX,
        program[state.instruction_pointer as int] == instruction_for(symbol, count as u8),
    ensures
        step_spec(program, jumps, state, event) == match repeated(symbol, count, state) {
            Some(after) => (after.advanced(), Action::Continue),
            None => (state, Action::Fault(RuntimeFault::PointerOutOfBounds)),
        },
{
    reveal(repeated);
}

/// Repetitions look at the memory pointer and the tape alone and leave the
/// instruction pointer where it is; none at all change nothing.
proof fn lemma_repeated_alike(symbol: char, count: nat, first: MachineState, second: MachineState)
    requires
        first.wf(),
        first.memory_pointer == second.memory_pointer,
        first.tape == second.tape,
    ensures
        repeated(symbol, count, first) is None <==> repeated(symbol, count, second) is None,
        repeated(symbol, count, first) matches Some(after) ==> {
            &&& after.instruction_pointer == first.instruction_pointer
            &&& after.memory_pointer == repeated(symbol, count, second)->0.memory_pointer
            &&& after.tape == repeated(symbol, count, second)->0.tape
            &&& after.tape.len() == first.tape.len()
            &&& after.wf()
        },
        count == 0 ==> repeated(symbol, count, first) == Some(first),
{
    reveal(repeated);
    if count == 0 {
        let after = repeated(symbol, count, first)->0;
        assert(after.tape =~= first.tape);
    }
}

/// Adding or subtracting 1 and then `count - 1`, each modulo 256, is adding
/// or subtracting `count` modulo 256.
proof fn lemma_wrapping_by_steps(cell: int, count: int)
    ensures
        ((cell + 1) % 256 + (count - 1)) % 256 == (cell + count) % 256,
        ((cell - 1) % 256 - (count - 1)) % 256 == (cell - count) % 256,
{
}

/// Repeating an operation `count` times is doing it once and then
/// `count - 1` times.
proof fn lemma_repeated_unfold(symbol: char, count: nat, state: MachineState)
    requires
        is_repeatable(symbol),
        state.wf(),
        state.tape.len() <= usize::MAX,
        count >= 1,
    ensures
        match repeated(symbol, 1, state) {
            None => repeated(symbol, count, state) is None,
            Some(one) => {
                &&& one.wf()
                &&& one.tape.len() == state.tape.len()
                &&& one.instruction_pointer == state.instruction_pointer
                &&& match repeated(symbol, (count - 1) as nat, one.advanced()) {
                    None => repeated(symbol, count, state) is None && one.tape == state.tape,
                    Some(rest) => {
                        &&& repeated(symbol, count, state) is Some
                        &&& rest.memory_pointer == repeated(symbol, count, state)->0.memory_pointer
                        &&& rest.tape == repeated(symbol, count, state)->0.tape
                    },
                }
            },
        },
{
    reveal(repeated);
    if symbol == '+' || symbol == '-' {
        let one = repeated(symbol, 1, state)->0;
        let rest = repeated(symbol, (count - 1) as nat, one.advanced())->0;
        let whole = repeated(symbol, count, state)->0;
        let cell = state.cell() as int;
        let at = state.memory_pointer as int;
        assert(one.tape[at] == if symbol == '+' {
            (cell + 1) % 256
        } else {
            (cell - 1) % 256
        });
        lemma_wrapping_by_steps(cell, count as int);
        assert(rest.tape =~= whole.tape);
    } else {
        let one = repeated(symbol, 1, state);
        if one is Some {
            assert(one->0.tape =~= state.tape);
        }
    }
}

/// A block of `count` instructions, each standing for one symbol `symbol`,
/// does what `repeated` says and moves on by `count` addresses, or faults
/// with the tape untouched; unless the steps run out within the block.
proof fn lemma_expanded_block(
    program: Seq<Instruction>,
    jumps: Map<usize, usize>,
    state: MachineState,
    input: Seq<u8>,
    consumed: nat,
    output: Seq<u8>,
    fuel: nat,
    symbol: char,
    count: nat,
)
    requires
        is_repeatable(symbol),
        state.wf(),
        state.tape.len() <= usize::MAX,
        state.instruction_pointer + count <= program.len() <= usize::MAX,
        forall|a: int|
            state.instruction_pointer <= a < state.instruction_pointer + count ==> program[a]
                == instruction_for(symbol, 1),
    ensures
        ({
            let trace = run_spec(program, jumps, state, input, consumed, output, fuel);
            match repeated(symbol, count, state) {
                Some(after) => if fuel >= count {
                    trace == run_spec(
                        program,
                        jumps,
                        after.at((state.instruction_pointer + count) as usize),
                        input,
                        consumed,
                        output,
                        (fuel - count) as nat,
                    )
                } else {
                    trace.termination == Termination::StepLimit
                },
                None => {
                    ||| fuel < count && trace.termination == Termination::StepLimit
                    ||| {
                        &&& trace.termination == Termination::Fault(
                            RuntimeFault::PointerOutOfBounds,
                        )
                        &&& trace.state.tape == state.tape
                        &&& trace.output == output
                        &&& trace.consumed == consumed
                    }
                },
            }
        }),
    decreases count,
{
    let here = state.instruction_pointer;
    if count == 0 {
        lemma_repeated_alike(symbol, 0, state, state);
        assert(state.at(here) == state);
    } else if fuel > 0 {
        assert(program[here as int] == instruction_for(symbol, 1));
        lemma_collapsed_step(program, jumps, state, input_event(input, consumed), symbol, 1);
        lemma_repeated_unfold(symbol, count, state);
        match repeated(symbol, 1, state) {
            None => {},
            Some(one) => {
                let next = one.advanced();
                lemma_expanded_block(
                    program,
                    jumps,
                    next,
                    input,
                    consumed,
                    output,
                    (fuel - 1) as nat,
                    symbol,
                    (count - 1) as nat,
                );
                match repeated(symbol, (count - 1) as nat, next) {
                    None => {},
                    Some(rest) => {
                        let whole = repeated(symbol, count, state)->0;
                        assert(rest.at((here + count) as usize) == whole.at(
                            (here + count) as usize,
                        ));
                    },
                }
            },
        }
    }
}

/// The program and its uncollapsed form, started at addresses that stand for
/// each other and in states with the same pointer and tape, end with the
/// same outcome, as soon as one of them is known to end and the other is
/// given steps enough to follow.
proof fn lemma_same_outcome_from(
    program: Seq<Instruction>,
    jumps: Map<usize, usize>,
    wide_jumps: Map<usize, usize>,
    state: MachineState,
    wide_state: MachineState,
    input: Seq<u8>,
    consumed: nat,
    output: Seq<u8>,
    fuel: nat,
    wide_fuel: nat,
)
    requires
        all_well_formed(program),
        program.len() <= usize::MAX,
        expanded(program).len() <= usize::MAX,
        jumps_agree(program, jumps, wide_jumps),
        state.instruction_pointer <= program.len(),
        wide_state.instruction_pointer == expanded_address(
            program,
            state.instruction_pointer as int,
        ),
        state.wf(),
        state.tape.len() <= usize::MAX,
        state.memory_pointer == wide_state.memory_pointer,
        state.tape == wide_state.tape,
        ({
            ||| fuel >= wide_fuel && run_spec(
                expanded(program),
                wide_jumps,
                wide_state,
                input,
                consumed,
                output,
                wide_fuel,
            ).termination != Termination::StepLimit
            ||| wide_fuel >= 255 * fuel && run_spec(
                program,
                jumps,
                state,
                input,
                consumed,
                output,
                fuel,
            ).termination != Termination::StepLimit
        }),
    ensures
        same_outcome(
            run_spec(program, jumps, state, input, consumed, output, fuel),
            run_spec(expanded(program), wide_jumps, wide_state, input, consumed, output, wide_fuel),
        ),
        run_spec(program, jumps, state, input, consumed, output, fuel).termination
            != Termination::StepLimit,
    decreases fuel,
{
    let wide = expanded(program);
    let i = state.instruction_pointer as int;
    lemma_expanded_ends(program);
    if i < program.len() {
        lemma_expanded_instruction(program, i);
        let instruction = program[i];
        let symbol = symbol_of(instruction);
        let count = width_of(instruction);
        let start = expanded_address(program, i);
        let event = input_event(input, consumed);
        assert(instruction.well_formed());
        assert(wide[start] == instruction_for(symbol, 1));
        assert(fuel > 0 && wide_fuel > 0);
        if is_repeatable(symbol) {
            assert(instruction == instruction_for(symbol, count as u8));
            lemma_collapsed_step(program, jumps, state, event, symbol, count);
            lemma_expanded_block(
                wide,
                wide_jumps,
                wide_state,
                input,
                consumed,
                output,
                wide_fuel,
                symbol,
                count,
            );
            lemma_repeated_alike(symbol, count, state, wide_state);
            match repeated(symbol, count, state) {
                None => {},
                Some(after) => {
                    let wide_after = repeated(symbol, count, wide_state)->0;
                    lemma_repeated_alike(symbol, count, wide_state, state);
                    lemma_same_outcome_from(
                        program,
                        jumps,
                        wide_jumps,
                        after.advanced(),
                        wide_after.at((start + count) as usize),
                        input,
                        consumed,
                        output,
                        (fuel - 1) as nat,
                        (wide_fuel - count) as nat,
                    );
                },
            }
        } else {
            assert(wide[start] == instruction);
            assert(instruction is LoopOpen || instruction is LoopClose ==> jumps.contains_key(
                state.instruction_pointer,
            ));
            let (next, action) = step_spec(program, jumps, state, event);
            let (wide_next, wide_action) = step_spec(wide, wide_jumps, wide_state, event);
            assert(action == wide_action);
            assert(next.tape =~= wide_next.tape);
            assert(next.memory_pointer == wide_next.memory_pointer);
            if !(action is Fault) {
                assert(next.instruction_pointer <= program.len());
                assert(wide_next.instruction_pointer == expanded_address(
                    program,
                    next.instruction_pointer as int,
                ));
                lemma_same_outcome_from(
                    program,
                    jumps,
                    wide_jumps,
                    next,
                    wide_next,
                    input,
                    if instruction is Input {
                        consumed + 1
                    } else {
                        consumed
                    },
                    match action {
                        Action::WriteByte(byte) => output.push(byte),
                        _ => output,
                    },
                    (fuel - 1) as nat,
                    (wide_fuel - 1) as nat,
                );
            }
        }
    }
}

/// The jump tables of a program and of its uncollapsed form agree.
pub proof fn lemma_jump_tables_agree(
    program: Seq<Instruction>,
    jumps: Map<usize, usize>,
    wide_jumps: Map<usize, usize>,
)
    requires
        all_well_formed(program),
        expanded(program).len() <= usize::MAX,
        is_jump_table(program, jumps),
        is_jump_table(expanded(program), wide_jumps),
    ensures
        jumps_agree(program, jumps, wide_jumps),
{
    assert forall|a: usize|
        a < program.len() && (program[a as int] is LoopOpen
            || program[a as int] is LoopClose) implies {
        &&& #[trigger] jumps.contains_key(a)
        &&& jumps[a] < program.len()
        &&& wide_jumps.contains_key(expanded_address(program, a as int) as usize)
        &&& wide_jumps[expanded_address(program, a as int) as usize] == expanded_address(
            program,
            jumps[a] as int,
        )
    } by {
        lemma_expanded_jump(program, jumps, wide_jumps, a);
    }
}

/// A run of a program and a run of its uncollapsed form, each with the jump
/// table of what it runs and from the same state at address 0, go the same
/// way.
pub proof fn lemma_expansion_is_transparent(
    program: Seq<Instruction>,
    jumps: Map<usize, usize>,
    wide_jumps: Map<usize, usize>,
    state: MachineState,
    input: Seq<u8>,
    fuel: nat,
    wide_fuel: nat,
)
    requires
        all_well_formed(program),
        expanded(program).len() <= usize::MAX,
        is_jump_table(program, jumps),
        is_jump_table(expanded(program), wide_jumps),
        state.wf(),
        state.tape.len() <= usize::MAX,
        state.instruction_pointer == 0,
    ensures
        run_alike(
            program,
            jumps,
            expanded(program),
            wide_jumps,
            state,
            input,
            fuel,
            wide_fuel,
        ),
{
    lemma_jump_tables_agree(program, jumps, wide_jumps);
    lemma_runs_agree(program, jumps, wide_jumps, state, input, fuel, wide_fuel);
}

/// What `lemma_expansion_is_transparent` states, for jump tables that agree.
proof fn lemma_runs_agree(
    program: Seq<Instruction>,
    jumps: Map<usize, usize>,
    wide_jumps: Map<usize, usize>,
    state: MachineState,
    input: Seq<u8>,
    fuel: nat,
    wide_fuel: nat,
)
    requires
        all_well_formed(program),
        expanded(program).len() <= usize::MAX,
        jumps_agree(program, jumps, wide_jumps),
        state.wf(),
        state.tape.len() <= usize::MAX,
        state.instruction_pointer == 0,
    ensures
        run_alike(
            program,
            jumps,
            expanded(program),
            wide_jumps,
            state,
            input,
            fuel,
            wide_fuel,
        ),
{
    let wide = expanded(program);
    let nothing = Seq::<u8>::empty();
    let narrow_run = run_spec(program, jumps, state, input, 0, nothing, fuel);
    let wide_run = run_spec(wide, wide_jumps, state, input, 0, nothing, wide_fuel);
    lemma_expanded_is_no_shorter(program);
    lemma_expanded_ends(program);
    if ended(narrow_run) {
        lemma_same_outcome_from(
            program,
            jumps,
            wide_jumps,
            state,
            state,
            input,
            0,
            nothing,
            fuel,
            255 * fuel,
        );
    }
    if ended(wide_run) {
        lemma_same_outcome_from(
            program,
            jumps,
            wide_jumps,
            state,
            state,
            input,
            0,
            nothing,
            wide_fuel,
            wide_fuel,
        );
        if ended(narrow_run) {
            if fuel <= wide_fuel {
                lemma_run_needs_no_more_fuel(
                    program,
                    jumps,
                    state,
                    input,
                    0,
                    nothing,
                    fuel,
                    wide_fuel,
                );
            } else {
                lemma_run_needs_no_more_fuel(
                    program,
                    jumps,
                    state,
                    input,
                    0,
                    nothing,
                    wide_fuel,
                    fuel,
                );
            }
        }
    }
}

/// The uncollapsed form of what a source compiles to is the source written
/// out with one instruction per symbol.
pub proof fn lemma_expanded_compile(tokens: Seq<char>)
    requires
        all_instructions(tokens),
    ensures
        expanded(compile_spec(tokens)) == expand_spec(tokens),
        all_well_formed(compile_spec(tokens)),
{
    lemma_compile_is_lossless(tokens);
    lemma_compile_well_formed(tokens);
}

/// Run-length collapsing is transparent: what a source compiles to and the
/// same source with one instruction per symbol, each run with its jump table
/// from the same state at address 0, go the same way: if one of them ends,
/// so does the other, and with the same outcome.
pub proof fn lemma_collapse_is_transparent(
    tokens: Seq<char>,
    jumps: Map<usize, usize>,
    wide_jumps: Map<usize, usize>,
    state: MachineState,
    input: Seq<u8>,
    fuel: nat,
    wide_fuel: nat,
)
    requires
        all_instructions(tokens),
        tokens.len() <= usize::MAX,
        is_jump_table(compile_spec(tokens), jumps),
        is_jump_table(expand_spec(tokens), wide_jumps),
        state.wf(),
        state.tape.len() <= usize::MAX,
        state.instruction_pointer == 0,
    ensures
        run_alike(
            compile_spec(tokens),
            jumps,
            expand_spec(tokens),
            wide_jumps,
            state,
            input,
            fuel,
            wide_fuel,
        ),
{
    lemma_expanded_compile(tokens);
    lemma_expansion_is_transparent(
        compile_spec(tokens),
        jumps,
        wide_jumps,
        state,
        input,
        fuel,
        wide_fuel,
    );
}

/// A program of pointer and cell operations ends within as many steps as it
/// has instructions left, at its end or with the pointer off the tape, and
/// neither reads nor writes.
pub proof fn lemma_straight_line_ends(
    program: Seq<Instruction>,
    jumps: Map<usize, usize>,
    state: MachineState,
    input: Seq<u8>,
    consumed: nat,
    output: Seq<u8>,
    fuel: nat,
)
    requires
        is_straight_line(program),
        program.len() <= usize::MAX,
        state.instruction_pointer <= program.len(),
        fuel >= program.len() - state.instruction_pointer,
    ensures
        ({
            let trace = run_spec(program, jumps, state, input, consumed, output, fuel);
            &&& trace.termination == Termination::Finished || trace.termination
                == Termination::Fault(RuntimeFault::PointerOutOfBounds)
            &&& trace.output == output
            &&& trace.consumed == consumed
        }),
    decreases fuel,
{
    if state.instruction_pointer < program.len() {
        let instruction = program[state.instruction_pointer as int];
        assert(is_repeatable(symbol_of(instruction)));
        let (next, action) = step_spec(program, jumps, state, input_event(input, consumed));
        if action is Continue {
            lemma_straight_line_ends(
                program,
                jumps,
                next,
                input,
                consumed,
                output,
                (fuel - 1) as nat,
            );
        }
    }
}

/// For source made of pointer and cell operations alone, executing what it
/// compiles to has the same outcome as executing one instruction per symbol:
/// from any state at address 0, whatever the jump tables hold, once each
/// run may take as many steps as its program has instructions.
pub proof fn lemma_collapse_is_transparent_without_loops(
    tokens: Seq<char>,
    state: MachineState,
    jumps: Map<usize, usize>,
    wide_jumps: Map<usize, usize>,
    input: Seq<u8>,
    fuel: nat,
    wide_fuel: nat,
)
    requires
        all_repeatable(tokens),
        tokens.len() <= usize::MAX,
        state.wf(),
        state.tape.len() <= usize::MAX,
        state.instruction_pointer == 0,
        fuel >= compile_spec(tokens).len(),
        wide_fuel >= tokens.len(),
    ensures
        ({
            let narrow_run = run_spec(
                compile_spec(tokens),
                jumps,
                state,
                input,
                0,
                Seq::empty(),
                fuel,
            );
            let wide_run = run_spec(
                expand_spec(tokens),
                wide_jumps,
                state,
                input,
                0,
                Seq::empty(),
                wide_fuel,
            );
            &&& same_outcome(narrow_run, wide_run)
            &&& narrow_run.termination == Termination::Finished || narrow_run.termination
                == Termination::Fault(RuntimeFault::PointerOutOfBounds)
            &&& narrow_run.output == Seq::<u8>::empty()
            &&& narrow_run.consumed == 0
        }),
{
    let narrow = compile_spec(tokens);
    let wide = expand_spec(tokens);
    assert(all_instructions(tokens));
    lemma_expanded_compile(tokens);
    lemma_expanded_is_no_shorter(narrow);
    assert(is_straight_line(wide));
    assert forall|i: int| 0 <= i < narrow.len() implies is_repeatable(
        symbol_of(#[trigger] narrow[i]),
    ) by {
        lemma_expanded_instruction(narrow, i);
        let start = expanded_address(narrow, i);
        assert(wide[start] == instruction_for(symbol_of(narrow[i]), 1));
        assert(is_repeatable(tokens[start]));
    }
    lemma_straight_line_ends(narrow, jumps, state, input, 0, Seq::empty(), fuel);
    lemma_straight_line_ends(wide, wide_jumps, state, input, 0, Seq::empty(), wide_fuel);
    lemma_runs_agree(narrow, jumps, wide_jumps, state, input, fuel, wide_fuel);
}

} // verus!
