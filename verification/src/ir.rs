//! The intermediate representation and the compiler that produces it.
//!
//! Runs of the four pointer and cell operations are collapsed into one
//! instruction that carries a repeat count. The count is eight bits wide, so
//! a run of more than [`MAX_REPEAT`] equal symbols is split: it becomes as
//! many full instructions as fit, followed by one for the remainder.

use crate::lexer::{all_instructions, is_instruction, Lexer, END_OF_INPUT};
use vstd::prelude::*;

verus! {

/// The largest repeat count that one instruction can carry.
pub const MAX_REPEAT: u8 = 255;

/// One instruction of a compiled program. Its address is its position in the
/// program.
#[derive(Clone, Copy, Debug, PartialEq, Eq, Structural)]
pub enum Instruction {
    /// Move the memory pointer up by the count.
    PointerIncrement(u8),
    /// Move the memory pointer down by the count.
    PointerDecrement(u8),
    /// Add the count to the current cell, modulo 256.
    CellIncrement(u8),
    /// Subtract the count from the current cell, modulo 256.
    CellDecrement(u8),
    /// Write the current cell to the output stream.
    Output,
    /// Read one byte from the input stream into the current cell.
    Input,
    /// Jump to the matching `LoopClose` if the current cell is zero.
    LoopOpen,
    /// Jump to the matching `LoopOpen` if the current cell is not zero.
    LoopClose,
}

impl Instruction {
    /// A repeat count, where there is one, is at least 1.
    pub open spec fn well_formed(self) -> bool {
        match self {
            Instruction::PointerIncrement(n) => n >= 1,
            Instruction::PointerDecrement(n) => n >= 1,
            Instruction::CellIncrement(n) => n >= 1,
            Instruction::CellDecrement(n) => n >= 1,
            _ => true,
        }
    }

}

/// Every instruction of `program` is well formed.
pub open spec fn all_well_formed(program: Seq<Instruction>) -> bool {
    forall|i: int| 0 <= i < program.len() ==> (#[trigger] program[i]).well_formed()
}

/// Whether runs of `c` are collapsed into one instruction.
pub open spec fn is_repeatable(c: char) -> bool {
    c == '>' || c == '<' || c == '+' || c == '-'
}

/// The instruction that stands for `count` consecutive symbols `symbol`. The
/// count is ignored for the four symbols that are never collapsed.
pub open spec fn instruction_for(symbol: char, count: u8) -> Instruction {
    if symbol == '>' {
        Instruction::PointerIncrement(count)
    } else if symbol == '<' {
        Instruction::PointerDecrement(count)
    } else if symbol == '+' {
        Instruction::CellIncrement(count)
    } else if symbol == '-' {
        Instruction::CellDecrement(count)
    } else if symbol == '.' {
        Instruction::Output
    } else if symbol == ',' {
        Instruction::Input
    } else if symbol == '[' {
        Instruction::LoopOpen
    } else {
        Instruction::LoopClose
    }
}

/// How many symbols at the start of `tokens` equal `symbol`.
pub open spec fn leading(tokens: Seq<char>, symbol: char) -> nat
    decreases tokens.len(),
{
    if tokens.len() == 0 || tokens[0] != symbol {
        0
    } else {
        1 + leading(tokens.drop_first(), symbol)
    }
}

/// How many symbols the first instruction compiled from `tokens` stands for.
pub open spec fn first_run(tokens: Seq<char>) -> nat
    recommends
        tokens.len() > 0,
{
    if !is_repeatable(tokens[0]) {
        1
    } else if leading(tokens, tokens[0]) <= MAX_REPEAT {
        leading(tokens, tokens[0])
    } else {
        MAX_REPEAT as nat
    }
}

/// The program that a sequence of instruction symbols compiles to.
pub open spec fn compile_spec(tokens: Seq<char>) -> Seq<Instruction>
    decreases tokens.len(),
    via compile_spec_decreases
{
    if tokens.len() == 0 {
        Seq::empty()
    } else {
        let n = first_run(tokens);
        seq![instruction_for(tokens[0], n as u8)] + compile_spec(tokens.skip(n as int))
    }
}

#[via_fn]
proof fn compile_spec_decreases(tokens: Seq<char>) {
    if tokens.len() > 0 {
        lemma_leading_bounds(tokens, tokens[0]);
    }
}

/// The uncollapsed form: one instruction with count 1 for every symbol.
pub open spec fn expand_spec(tokens: Seq<char>) -> Seq<Instruction> {
    Seq::new(tokens.len(), |i: int| instruction_for(tokens[i], 1))
}

/// The leading symbols `symbol` are symbols of `tokens`, and each of them is
/// `symbol`.
proof fn lemma_leading_bounds(tokens: Seq<char>, symbol: char)
    ensures
        leading(tokens, symbol) <= tokens.len(),
        tokens.len() > 0 && tokens[0] == symbol ==> leading(tokens, symbol) >= 1,
        forall|i: int| 0 <= i < leading(tokens, symbol) ==> tokens[i] == symbol,
    decreases tokens.len(),
{
    if tokens.len() > 0 && tokens[0] == symbol {
        let rest = tokens.drop_first();
        lemma_leading_bounds(rest, symbol);
        assert forall|i: int| 0 <= i < leading(tokens, symbol) implies tokens[i] == symbol by {
            if i > 0 {
                assert(tokens[i] == rest[i - 1]);
            }
        }
    }
}

/// A block of `k` symbols `symbol` at the start adds `k` to the count.
proof fn lemma_leading_after_block(tokens: Seq<char>, symbol: char, k: nat)
    requires
        k <= tokens.len(),
        forall|i: int| 0 <= i < k ==> tokens[i] == symbol,
    ensures
        leading(tokens, symbol) == k + leading(tokens.skip(k as int), symbol),
    decreases k,
{
    if k == 0 {
        assert(tokens.skip(0) =~= tokens);
    } else {
        let rest = tokens.drop_first();
        assert forall|i: int| 0 <= i < k - 1 implies rest[i] == symbol by {
            assert(rest[i] == tokens[i + 1]);
        }
        lemma_leading_after_block(rest, symbol, (k - 1) as nat);
        assert(rest.skip(k - 1) =~= tokens.skip(k as int));
    }
}

/// Every instruction of a compiled program is well formed.
pub proof fn lemma_compile_well_formed(tokens: Seq<char>)
    ensures
        all_well_formed(compile_spec(tokens)),
    decreases tokens.len(),
{
    if tokens.len() > 0 {
        let n = first_run(tokens);
        lemma_leading_bounds(tokens, tokens[0]);
        lemma_compile_well_formed(tokens.skip(n as int));
        let head = seq![instruction_for(tokens[0], n as u8)];
        let tail = compile_spec(tokens.skip(n as int));
        assert forall|i: int| 0 <= i < compile_spec(tokens).len() implies (#[trigger] compile_spec(
            tokens,
        )[i]).well_formed() by {
            if i > 0 {
                assert((head + tail)[i] == tail[i - 1]);
            }
        }
    }
}

/// The symbol that an instruction is written with.
pub open spec fn symbol_of(instruction: Instruction) -> char {
    match instruction {
        Instruction::PointerIncrement(_) => '>',
        Instruction::PointerDecrement(_) => '<',
        Instruction::CellIncrement(_) => '+',
        Instruction::CellDecrement(_) => '-',
        Instruction::Output => '.',
        Instruction::Input => ',',
        Instruction::LoopOpen => '[',
        Instruction::LoopClose => ']',
    }
}

/// How many symbols an instruction stands for.
pub open spec fn width_of(instruction: Instruction) -> nat {
    match instruction {
        Instruction::PointerIncrement(n) => n as nat,
        Instruction::PointerDecrement(n) => n as nat,
        Instruction::CellIncrement(n) => n as nat,
        Instruction::CellDecrement(n) => n as nat,
        _ => 1,
    }
}

/// The symbols that an instruction stands for.
pub open spec fn symbols_of(instruction: Instruction) -> Seq<char> {
    Seq::new(width_of(instruction), |i: int| symbol_of(instruction))
}

/// The symbols that a program stands for, in order.
pub open spec fn source_of(program: Seq<Instruction>) -> Seq<char>
    decreases program.len(),
{
    if program.len() == 0 {
        Seq::empty()
    } else {
        symbols_of(program[0]) + source_of(program.drop_first())
    }
}

/// Whether two instructions are the same pointer or cell operation, whatever
/// their counts.
pub open spec fn same_operation(first: Instruction, second: Instruction) -> bool {
    ||| first is PointerIncrement && second is PointerIncrement
    ||| first is PointerDecrement && second is PointerDecrement
    ||| first is CellIncrement && second is CellIncrement
    ||| first is CellDecrement && second is CellDecrement
}

/// Whether an instruction carries the largest count there is.
pub open spec fn is_full(instruction: Instruction) -> bool {
    width_of(instruction) == MAX_REPEAT
}

/// Compiling loses nothing and adds nothing: writing out the symbols of the
/// compiled program gives the source back.
pub proof fn lemma_compile_is_lossless(tokens: Seq<char>)
    requires
        all_instructions(tokens),
    ensures
        source_of(compile_spec(tokens)) == tokens,
    decreases tokens.len(),
{
    if tokens.len() > 0 {
        let n = first_run(tokens);
        lemma_leading_bounds(tokens, tokens[0]);
        let first = instruction_for(tokens[0], n as u8);
        let rest = tokens.skip(n as int);
        lemma_compile_is_lossless(rest);
        assert(is_instruction(tokens[0]));
        assert(symbols_of(first) =~= tokens.take(n as int));
        assert((seq![first] + compile_spec(rest)).drop_first() =~= compile_spec(rest));
        assert(tokens.take(n as int) + rest =~= tokens);
    }
}

/// Runs are collapsed as far as the count allows: where two neighbours in a
/// compiled program are the same operation, the first of them is full.
pub proof fn lemma_compile_is_maximal(tokens: Seq<char>, address: int)
    requires
        0 <= address,
        address + 1 < compile_spec(tokens).len(),
        same_operation(compile_spec(tokens)[address], compile_spec(tokens)[address + 1]),
    ensures
        is_full(compile_spec(tokens)[address]),
    decreases tokens.len(),
{
    let n = first_run(tokens);
    lemma_leading_bounds(tokens, tokens[0]);
    let first = instruction_for(tokens[0], n as u8);
    let rest = tokens.skip(n as int);
    let tail = compile_spec(rest);
    assert(compile_spec(tokens) == seq![first] + tail);
    if address == 0 {
        assert(compile_spec(tokens)[1] == tail[0]);
        assert(tail[0] == instruction_for(rest[0], first_run(rest) as u8));
        assert(rest[0] == tokens[n as int]);
        assert(tokens[n as int] == tokens[0]);
        lemma_leading_after_block(tokens, tokens[0], n);
        assert(leading(rest, tokens[0]) >= 1);
    } else {
        assert(compile_spec(tokens)[address] == tail[address - 1]);
        assert(compile_spec(tokens)[address + 1] == tail[address]);
        lemma_compile_is_maximal(rest, address - 1);
    }
}

/// The symbols still to be compiled when `symbol` was just taken off a lexer
/// whose pending symbols are `pending`.
spec fn upcoming(symbol: char, pending: Seq<char>) -> Seq<char> {
    if symbol == END_OF_INPUT {
        Seq::empty()
    } else {
        seq![symbol] + pending
    }
}

/// Compiles everything that `lexer` has yet to yield.
pub fn compile(lexer: &mut Lexer) -> (program: Vec<Instruction>)
    requires
        old(lexer).wf(),
    ensures
        final(lexer).wf(),
        final(lexer).content() == old(lexer).content(),
        final(lexer).position() == old(lexer).content().len(),
        final(lexer).pending().len() == 0,
        program@ == compile_spec(old(lexer).pending()),
        all_well_formed(program@),
{
    let ghost all = lexer.pending();
    let mut program: Vec<Instruction> = Vec::new();
    let mut c = lexer.next();
    assert(upcoming(c, lexer.pending()) =~= all);
    assert(program@ + compile_spec(all) =~= compile_spec(all));
    while c != END_OF_INPUT
        invariant
            lexer.wf(),
            lexer.content() == old(lexer).content(),
            c != END_OF_INPUT ==> is_instruction(c),
            c == END_OF_INPUT ==> lexer.pending().len() == 0 && lexer.position()
                == lexer.content().len(),
            program@ + compile_spec(upcoming(c, lexer.pending())) == compile_spec(all),
        decreases upcoming(c, lexer.pending()).len(),
    {
        let ghost run = upcoming(c, lexer.pending());
        let ghost before = program@;
        let instruction: Instruction;
        if c == '>' || c == '<' || c == '+' || c == '-' {
            let mut streak: u8 = 1;
            let mut s = lexer.next();
            assert(run.skip(1) =~= upcoming(s, lexer.pending()));
            while s == c && streak < MAX_REPEAT
                invariant
                    lexer.wf(),
                    lexer.content() == old(lexer).content(),
                    c != END_OF_INPUT,
                    s != END_OF_INPUT ==> is_instruction(s),
                    s == END_OF_INPUT ==> lexer.pending().len() == 0 && lexer.position()
                        == lexer.content().len(),
                    1 <= streak <= MAX_REPEAT,
                    streak <= run.len(),
                    forall|i: int| 0 <= i < streak ==> run[i] == c,
                    run.skip(streak as int) == upcoming(s, lexer.pending()),
                decreases upcoming(s, lexer.pending()).len(),
            {
                let ghost rest = upcoming(s, lexer.pending());
                streak += 1;
                s = lexer.next();
                proof {
                    assert(rest.skip(1) =~= upcoming(s, lexer.pending()));
                    assert(run.skip(streak as int) =~= rest.skip(1));
                    assert(run[streak - 1] == rest[0]);
                }
            }
            proof {
                let rest = upcoming(s, lexer.pending());
                lemma_leading_after_block(run, c, streak as nat);
                if s == c {
                    assert(rest[0] == c);
                    assert(leading(rest, c) >= 1);
                } else {
                    assert(leading(rest, c) == 0);
                }
                assert(first_run(run) == streak);
            }
            instruction = if c == '>' {
                Instruction::PointerIncrement(streak)
            } else if c == '<' {
                Instruction::PointerDecrement(streak)
            } else if c == '+' {
                Instruction::CellIncrement(streak)
            } else {
                Instruction::CellDecrement(streak)
            };
            c = s;
        } else {
            instruction = if c == '.' {
                Instruction::Output
            } else if c == ',' {
                Instruction::Input
            } else if c == '[' {
                Instruction::LoopOpen
            } else {
                Instruction::LoopClose
            };
            c = lexer.next();
            assert(run.skip(1) =~= upcoming(c, lexer.pending()));
        }
        program.push(instruction);
        proof {
            let rest = upcoming(c, lexer.pending());
            assert(compile_spec(run) == seq![instruction] + compile_spec(rest));
            assert(program@ + compile_spec(rest) =~= before + compile_spec(run));
        }
    }
    proof {
        assert(program@ + Seq::<Instruction>::empty() =~= program@);
        lemma_compile_well_formed(all);
    }
    program
}

} // verus!
