//! The uncollapsed form of a program, and how its addresses and brackets
//! relate to those of the program.

use crate::ir::{
    all_well_formed, expand_spec, instruction_for, source_of, symbol_of, symbols_of, width_of,
    Instruction,
};
use crate::jumps::{
    bracket_delta, is_jump_table, is_matching_pair, lemma_matching_pair_unique, nesting,
};
use vstd::prelude::*;

verus! {

/// The uncollapsed form of a program: one instruction with count 1 for
/// every symbol that the program stands for.
pub open spec fn expanded(program: Seq<Instruction>) -> Seq<Instruction> {
    expand_spec(source_of(program))
}

/// Where the instruction at `address` starts in the uncollapsed form.
pub open spec fn expanded_address(program: Seq<Instruction>, address: int) -> int {
    source_of(program.take(address)).len() as int
}

/// The symbols of two programs in a row are the symbols of the one followed
/// by the symbols of the other.
pub proof fn lemma_source_of_concat(first: Seq<Instruction>, second: Seq<Instruction>)
    ensures
        source_of(first + second) == source_of(first) + source_of(second),
    decreases first.len(),
{
    if first.len() == 0 {
        assert(first + second =~= second);
        assert(source_of(first) + source_of(second) =~= source_of(second));
    } else {
        lemma_source_of_concat(first.drop_first(), second);
        assert((first + second).drop_first() =~= first.drop_first() + second);
        assert(source_of(first + second) =~= source_of(first) + source_of(second));
    }
}

/// An instruction of a well-formed program takes up as many addresses of the
/// uncollapsed form as it stands for symbols, and each of them holds the
/// same operation with count 1.
pub proof fn lemma_expanded_instruction(program: Seq<Instruction>, address: int)
    requires
        all_well_formed(program),
        0 <= address < program.len(),
    ensures
        width_of(program[address]) >= 1,
        0 <= expanded_address(program, address),
        expanded_address(program, address + 1) == expanded_address(program, address) + width_of(
            program[address],
        ),
        expanded_address(program, address + 1) <= expanded(program).len(),
        forall|a: int|
            expanded_address(program, address) <= a < expanded_address(program, address + 1)
                ==> expanded(program)[a] == instruction_for(symbol_of(program[address]), 1),
{
    let instruction = program[address];
    let before = program.take(address);
    let after = program.skip(address + 1);
    assert(instruction.well_formed());
    assert(source_of(seq![instruction]) =~= symbols_of(instruction)) by {
        assert(seq![instruction].drop_first() =~= Seq::<Instruction>::empty());
        reveal_with_fuel(source_of, 2);
    }
    assert(program.take(address + 1) =~= before + seq![instruction]);
    lemma_source_of_concat(before, seq![instruction]);
    assert(program =~= program.take(address + 1) + after);
    lemma_source_of_concat(program.take(address + 1), after);
    let start = expanded_address(program, address);
    assert forall|a: int| start <= a < start + width_of(instruction) implies expanded(program)[a]
        == instruction_for(symbol_of(instruction), 1) by {
        assert(source_of(program)[a] == symbols_of(instruction)[a - start]);
    }
}

/// The uncollapsed form starts where the program starts and ends where it
/// ends.
pub proof fn lemma_expanded_ends(program: Seq<Instruction>)
    ensures
        expanded_address(program, 0) == 0,
        expanded_address(program, program.len() as int) == expanded(program).len(),
{
    assert(program.take(0) =~= Seq::<Instruction>::empty());
    assert(program.take(program.len() as int) =~= program);
}

/// Later instructions start at later addresses of the uncollapsed form.
pub proof fn lemma_expanded_address_grows(program: Seq<Instruction>, earlier: int, later: int)
    requires
        all_well_formed(program),
        0 <= earlier <= later <= program.len(),
    ensures
        0 <= expanded_address(program, earlier) <= expanded_address(program, later)
            <= expanded(program).len(),
        earlier < later ==> expanded_address(program, earlier) < expanded_address(
            program,
            later,
        ),
    decreases later - earlier,
{
    if earlier < later {
        lemma_expanded_instruction(program, later - 1);
        lemma_expanded_address_grows(program, earlier, later - 1);
    } else {
        lemma_expanded_ends(program);
        if later < program.len() {
            lemma_expanded_instruction(program, later);
        }
    }
}

/// An instruction starts no earlier in the uncollapsed form than in the
/// program.
proof fn lemma_expanded_reaches(program: Seq<Instruction>, address: int)
    requires
        all_well_formed(program),
        0 <= address <= program.len(),
    ensures
        address <= expanded_address(program, address),
    decreases address,
{
    if address > 0 {
        lemma_expanded_reaches(program, address - 1);
        lemma_expanded_address_grows(program, address - 1, address);
    } else {
        lemma_expanded_ends(program);
    }
}

/// The uncollapsed form is no shorter than the program.
pub proof fn lemma_expanded_is_no_shorter(program: Seq<Instruction>)
    requires
        all_well_formed(program),
    ensures
        program.len() <= expanded(program).len(),
{
    lemma_expanded_reaches(program, program.len() as int);
    lemma_expanded_ends(program);
}

/// The nesting depth inside the uncollapsed form of an instruction: before
/// its first address it is the depth before the instruction, behind that
/// the depth after it.
pub proof fn lemma_expanded_nesting(program: Seq<Instruction>, address: int, within: int)
    requires
        all_well_formed(program),
        0 <= address <= program.len(),
        0 <= within,
        address < program.len() ==> within <= width_of(program[address]),
        address == program.len() ==> within == 0,
    ensures
        nesting(expanded(program), expanded_address(program, address) + within) == nesting(
            program,
            address,
        ) + if within > 0 {
            bracket_delta(program[address])
        } else {
            0
        },
    decreases address, within,
{
    if within == 0 {
        if address == 0 {
            lemma_expanded_ends(program);
        } else {
            lemma_expanded_instruction(program, address - 1);
            lemma_expanded_nesting(
                program,
                address - 1,
                width_of(program[address - 1]) as int,
            );
        }
    } else {
        lemma_expanded_instruction(program, address);
        lemma_expanded_nesting(program, address, within - 1);
        let here = expanded_address(program, address) + within - 1;
        assert(expanded(program)[here] == instruction_for(symbol_of(program[address]), 1));
    }
}

/// Between a `LoopOpen` and its `LoopClose` the uncollapsed form is nested
/// as deeply as the program.
proof fn lemma_expanded_nesting_stays_above(
    program: Seq<Instruction>,
    open: int,
    close: int,
    upto: int,
)
    requires
        all_well_formed(program),
        is_matching_pair(program, open, close),
        open < upto <= close,
    ensures
        forall|a: int|
            expanded_address(program, open) < a <= expanded_address(program, upto)
                ==> #[trigger] nesting(expanded(program), a) > nesting(
                expanded(program),
                expanded_address(program, open),
            ),
    decreases upto,
{
    let last = upto - 1;
    lemma_expanded_instruction(program, last);
    lemma_expanded_nesting(program, open, 0);
    if last > open {
        lemma_expanded_nesting_stays_above(program, open, close, last);
    }
    assert forall|a: int|
        expanded_address(program, open) < a <= expanded_address(
            program,
            upto,
        ) implies #[trigger] nesting(expanded(program), a) > nesting(
        expanded(program),
        expanded_address(program, open),
    ) by {
        if a > expanded_address(program, last) {
            lemma_expanded_nesting(program, last, a - expanded_address(program, last));
            assert(nesting(program, upto) > nesting(program, open));
        }
    }
}

/// A matching pair of the program is a matching pair of its uncollapsed
/// form.
pub proof fn lemma_expanded_matching_pair(program: Seq<Instruction>, open: int, close: int)
    requires
        all_well_formed(program),
        is_matching_pair(program, open, close),
    ensures
        is_matching_pair(
            expanded(program),
            expanded_address(program, open),
            expanded_address(program, close),
        ),
{
    lemma_expanded_instruction(program, open);
    lemma_expanded_instruction(program, close);
    lemma_expanded_address_grows(program, open, close);
    lemma_expanded_nesting(program, open, 0);
    lemma_expanded_nesting(program, close, 1);
    lemma_expanded_nesting_stays_above(program, open, close, close);
    assert(expanded(program)[expanded_address(program, open)] is LoopOpen);
    assert(expanded(program)[expanded_address(program, close)] is LoopClose);
}

/// Where the jump table of a program sends a bracket, the jump table of the
/// uncollapsed form sends it too.
pub proof fn lemma_expanded_jump(
    program: Seq<Instruction>,
    jumps: Map<usize, usize>,
    expanded_jumps: Map<usize, usize>,
    address: usize,
)
    requires
        all_well_formed(program),
        expanded(program).len() <= usize::MAX,
        is_jump_table(program, jumps),
        is_jump_table(expanded(program), expanded_jumps),
        address < program.len(),
        program[address as int] is LoopOpen || program[address as int] is LoopClose,
    ensures
        jumps.contains_key(address),
        jumps[address] < program.len(),
        expanded_jumps.contains_key(expanded_address(program, address as int) as usize),
        expanded_jumps[expanded_address(program, address as int) as usize] == expanded_address(
            program,
            jumps[address] as int,
        ),
{
    let wide = expanded(program);
    let partner = jumps[address];
    assert(jumps.contains_key(address));
    lemma_expanded_instruction(program, address as int);
    let here = expanded_address(program, address as int) as usize;
    assert(wide[here as int] == instruction_for(symbol_of(program[address as int]), 1));
    assert(expanded_jumps.contains_key(here));
    if program[address as int] is LoopOpen {
        assert(is_matching_pair(program, address as int, partner as int));
        lemma_expanded_matching_pair(program, address as int, partner as int);
        assert(is_matching_pair(wide, here as int, expanded_jumps[here] as int));
        lemma_matching_pair_unique(
            wide,
            here as int,
            expanded_jumps[here] as int,
            here as int,
            expanded_address(program, partner as int),
        );
    } else {
        assert(is_matching_pair(program, partner as int, address as int));
        lemma_expanded_matching_pair(program, partner as int, address as int);
        assert(is_matching_pair(wide, expanded_jumps[here] as int, here as int));
        lemma_matching_pair_unique(
            wide,
            expanded_jumps[here] as int,
            here as int,
            expanded_address(program, partner as int),
            here as int,
        );
    }
}

} // verus!
