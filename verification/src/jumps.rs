//! Loop resolution: pairing every `LoopOpen` with its `LoopClose`.
//!
//! The pairing is specified through the nesting depth of a program prefix.
//! A `LoopOpen` at address `a` is closed by the first `LoopClose` after it at
//! which the depth has come back to what it was before `a`.

use crate::ir::Instruction;
use std::collections::HashMap;
use vstd::prelude::*;

verus! {

/// Why a program has no jump table.
#[derive(Clone, Copy, Debug, PartialEq, Eq, Structural)]
pub enum CompileError {
    /// The `LoopClose` at `address` has no `LoopOpen` before it left to close.
    UnmatchedLoopClose { address: usize },
    /// The `LoopOpen` at `address` is never closed.
    UnmatchedLoopOpen { address: usize },
}

/// What an instruction adds to the nesting depth.
pub open spec fn bracket_delta(instruction: Instruction) -> int {
    match instruction {
        Instruction::LoopOpen => 1,
        Instruction::LoopClose => -1,
        _ => 0,
    }
}

/// The number of `LoopOpen` minus the number of `LoopClose` among the first
/// `end` instructions.
pub open spec fn nesting(program: Seq<Instruction>, end: int) -> int
    decreases end,
{
    if end <= 0 {
        0
    } else {
        nesting(program, end - 1) + bracket_delta(program[end - 1])
    }
}

/// Every bracket of the program has a partner.
pub open spec fn balanced(program: Seq<Instruction>) -> bool {
    &&& forall|k: int| 0 <= k <= program.len() ==> nesting(program, k) >= 0
    &&& nesting(program, program.len() as int) == 0
}

/// The `LoopOpen` at `open` and the `LoopClose` at `close` delimit one loop.
pub open spec fn is_matching_pair(program: Seq<Instruction>, open: int, close: int) -> bool {
    &&& 0 <= open < close < program.len()
    &&& program[open] is LoopOpen
    &&& program[close] is LoopClose
    &&& nesting(program, close + 1) == nesting(program, open)
    &&& forall|k: int| open < k <= close ==> nesting(program, k) > nesting(program, open)
}

/// `address` holds the first `LoopClose` that closes nothing.
pub open spec fn first_unmatched_close(program: Seq<Instruction>, address: int) -> bool {
    &&& 0 <= address < program.len()
    &&& nesting(program, address + 1) < 0
    &&& forall|k: int| 0 <= k <= address ==> nesting(program, k) >= 0
}

/// `address` holds a `LoopOpen` that nothing closes.
pub open spec fn unmatched_open(program: Seq<Instruction>, address: int) -> bool {
    &&& 0 <= address < program.len()
    &&& program[address] is LoopOpen
    &&& forall|k: int|
        address < k <= program.len() ==> nesting(program, k) > nesting(program, address)
}

/// Every `LoopClose` closes something, and `address` holds the first
/// `LoopOpen` that nothing closes.
pub open spec fn first_unmatched_open(program: Seq<Instruction>, address: int) -> bool {
    &&& forall|k: int| 0 <= k <= program.len() ==> nesting(program, k) >= 0
    &&& unmatched_open(program, address)
    &&& forall|a: int| 0 <= a < address ==> !unmatched_open(program, a)
}

/// `table` maps the address of every bracket of `program`, and of nothing
/// else, to the address of its partner.
pub open spec fn is_jump_table(program: Seq<Instruction>, table: Map<usize, usize>) -> bool {
    &&& forall|a: usize| #[trigger]
        table.contains_key(a) <==> a < program.len() && (program[a as int] is LoopOpen
            || program[a as int] is LoopClose)
    &&& forall|a: usize| #[trigger]
        table.contains_key(a) && program[a as int] is LoopOpen ==> is_matching_pair(
            program,
            a as int,
            table[a] as int,
        )
    &&& forall|b: usize| #[trigger]
        table.contains_key(b) && program[b as int] is LoopClose ==> is_matching_pair(
            program,
            table[b] as int,
            b as int,
        )
}

/// A program with a bracket that has no partner is not balanced.
pub proof fn lemma_unmatched_is_unbalanced(program: Seq<Instruction>, address: int)
    requires
        first_unmatched_close(program, address) || unmatched_open(program, address),
    ensures
        !balanced(program),
{
    if first_unmatched_close(program, address) {
        assert(nesting(program, address + 1) < 0);
    } else {
        assert(nesting(program, program.len() as int) > nesting(program, address));
    }
}

/// A `LoopClose` closes at most one `LoopOpen`, and a `LoopOpen` is closed by
/// at most one `LoopClose`.
pub proof fn lemma_matching_pair_unique(
    program: Seq<Instruction>,
    open_a: int,
    close_a: int,
    open_b: int,
    close_b: int,
)
    requires
        is_matching_pair(program, open_a, close_a),
        is_matching_pair(program, open_b, close_b),
    ensures
        open_a == open_b <==> close_a == close_b,
{
    if open_a == open_b {
        if close_a < close_b {
            assert(nesting(program, close_a + 1) > nesting(program, open_b));
        } else if close_b < close_a {
            assert(nesting(program, close_b + 1) > nesting(program, open_a));
        }
    }
    if close_a == close_b {
        if open_a < open_b {
            assert(nesting(program, open_b) > nesting(program, open_a));
        } else if open_b < open_a {
            assert(nesting(program, open_a) > nesting(program, open_b));
        }
    }
}

/// Under a jump table no prefix of the program closes more loops than it
/// has opened.
proof fn lemma_jump_table_never_underflows(
    program: Seq<Instruction>,
    table: Map<usize, usize>,
    end: int,
)
    requires
        is_jump_table(program, table),
        program.len() <= usize::MAX,
        0 <= end <= program.len(),
    ensures
        nesting(program, end) >= 0,
    decreases end,
{
    if end > 0 {
        lemma_jump_table_never_underflows(program, table, end - 1);
        if program[end - 1] is LoopClose {
            let close = (end - 1) as usize;
            assert(table.contains_key(close));
            assert(is_matching_pair(program, table[close] as int, close as int));
            lemma_jump_table_never_underflows(program, table, table[close] as int);
        }
    }
}

/// Under a jump table a prefix that has closed every loop it opened is
/// followed by a rest that closes every loop it opens.
proof fn lemma_jump_table_closes_all(
    program: Seq<Instruction>,
    table: Map<usize, usize>,
    start: int,
)
    requires
        is_jump_table(program, table),
        program.len() <= usize::MAX,
        0 <= start <= program.len(),
        nesting(program, start) == 0,
    ensures
        nesting(program, program.len() as int) == 0,
    decreases program.len() - start,
{
    if start < program.len() {
        let here = start as usize;
        if program[start] is LoopOpen {
            assert(table.contains_key(here));
            assert(is_matching_pair(program, start, table[here] as int));
            lemma_jump_table_closes_all(program, table, table[here] + 1);
        } else {
            lemma_jump_table_never_underflows(program, table, start + 1);
            lemma_jump_table_closes_all(program, table, start + 1);
        }
    }
}

/// Only a balanced program has a jump table.
pub proof fn lemma_jump_table_means_balanced(program: Seq<Instruction>, table: Map<usize, usize>)
    requires
        is_jump_table(program, table),
        program.len() <= usize::MAX,
    ensures
        balanced(program),
{
    assert forall|k: int| 0 <= k <= program.len() implies nesting(program, k) >= 0 by {
        lemma_jump_table_never_underflows(program, table, k);
    }
    lemma_jump_table_closes_all(program, table, 0);
}

/// Whatever `table` maps an address to, it maps back to that address.
pub open spec fn symmetric(table: Map<usize, usize>) -> bool {
    forall|a: usize| #[trigger]
        table.contains_key(a) ==> table.contains_key(table[a]) && table[table[a]] == a
}

/// A jump table is symmetric: if it maps `a` to `b`, it maps `b` to `a`.
pub proof fn lemma_jump_table_symmetric(program: Seq<Instruction>, table: Map<usize, usize>)
    requires
        is_jump_table(program, table),
    ensures
        symmetric(table),
{
    assert forall|a: usize| #[trigger] table.contains_key(a) implies table.contains_key(table[a])
        && table[table[a]] == a by {
        let b = table[a];
        if program[a as int] is LoopOpen {
            assert(is_matching_pair(program, a as int, b as int));
            assert(table.contains_key(b));
            assert(is_matching_pair(program, table[b] as int, b as int));
            lemma_matching_pair_unique(program, a as int, b as int, table[b] as int, b as int);
        } else {
            assert(is_matching_pair(program, b as int, a as int));
            assert(table.contains_key(b));
            assert(is_matching_pair(program, b as int, table[b] as int));
            lemma_matching_pair_unique(program, b as int, a as int, b as int, table[b] as int);
        }
    }
}

/// A program has at most one jump table.
pub proof fn lemma_jump_table_unique(
    program: Seq<Instruction>,
    first: Map<usize, usize>,
    second: Map<usize, usize>,
)
    requires
        is_jump_table(program, first),
        is_jump_table(program, second),
    ensures
        first == second,
{
    assert forall|a: usize| first.contains_key(a) == second.contains_key(a) by {}
    assert forall|a: usize| #[trigger] first.contains_key(a) implies first[a] == second[a] by {
        assert(second.contains_key(a));
        if program[a as int] is LoopOpen {
            lemma_matching_pair_unique(
                program,
                a as int,
                first[a] as int,
                a as int,
                second[a] as int,
            );
        } else {
            lemma_matching_pair_unique(
                program,
                first[a] as int,
                a as int,
                second[a] as int,
                a as int,
            );
        }
    }
    assert(first =~= second);
}

/// Pairs the brackets of `program` in one pass, keeping the addresses of the
/// open loops on a stack.
pub fn resolve(program: &Vec<Instruction>) -> (result: Result<HashMap<usize, usize>, CompileError>)
    ensures
        result is Ok <==> balanced(program@),
        match result {
            Ok(table) => is_jump_table(program@, table@) && symmetric(table@),
            Err(CompileError::UnmatchedLoopClose { address }) => first_unmatched_close(
                program@,
                address as int,
            ),
            Err(CompileError::UnmatchedLoopOpen { address }) => first_unmatched_open(
                program@,
                address as int,
            ),
        },
{
    broadcast use vstd::std_specs::hash::group_hash_axioms;

    let mut table: HashMap<usize, usize> = HashMap::new();
    let mut stack: Vec<usize> = Vec::new();
    let mut address: usize = 0;
    while address < program.len()
        invariant
            address <= program.len(),
            forall|k: int| 0 <= k <= address ==> nesting(program@, k) >= 0,
            stack.len() == nesting(program@, address as int),
            forall|j: int|
                0 <= j < stack.len() ==> {
                    &&& (#[trigger] stack[j]) < address
                    &&& program[stack[j] as int] is LoopOpen
                    &&& nesting(program@, stack[j] as int) == j
                    &&& forall|k: int| stack[j] < k <= address ==> nesting(program@, k) > j
                },
            forall|i: int, j: int| 0 <= i < j < stack.len() ==> stack[i] < stack[j],
            forall|a: usize| #[trigger]
                table@.contains_key(a) ==> {
                    &&& a < address
                    &&& program[a as int] is LoopOpen ==> is_matching_pair(
                        program@,
                        a as int,
                        table@[a] as int,
                    )
                    &&& program[a as int] is LoopClose ==> is_matching_pair(
                        program@,
                        table@[a] as int,
                        a as int,
                    )
                    &&& program[a as int] is LoopOpen || program[a as int] is LoopClose
                },
            forall|b: usize|
                b < address && program[b as int] is LoopClose ==> #[trigger] table@.contains_key(b),
            forall|a: usize|
                a < address && program[a as int] is LoopOpen ==> stack@.contains(a)
                    || #[trigger] table@.contains_key(a),
        decreases program.len() - address,
    {
        let ghost depth = nesting(program@, address as int);
        let ghost open_before = stack@;
        let ghost table_before = table@;
        assert(nesting(program@, address + 1) == depth + bracket_delta(program[address as int]));
        match program[address] {
            Instruction::LoopOpen => {
                stack.push(address);
                assert forall|a: usize|
                    a <= address && program[a as int] is LoopOpen implies stack@.contains(a)
                    || #[trigger] table@.contains_key(a) by {
                    if a == address {
                        assert(stack@[stack.len() - 1] == a);
                    } else if !table@.contains_key(a) {
                        let j = choose|j: int| 0 <= j < open_before.len() && open_before[j] == a;
                        assert(stack@[j] == a);
                    }
                }
            },
            Instruction::LoopClose => {
                match stack.pop() {
                    None => {
                        return Err(CompileError::UnmatchedLoopClose { address });
                    },
                    Some(target) => {
                        assert(target == open_before[depth - 1]);
                        assert(is_matching_pair(program@, target as int, address as int));
                        table.insert(address, target);
                        table.insert(target, address);
                        assert forall|a: usize|
                            a <= address && program[a as int] is LoopOpen implies stack@.contains(
                            a,
                        ) || #[trigger] table@.contains_key(a) by {
                            if a != target && !table_before.contains_key(a) {
                                let j = choose|j: int|
                                    0 <= j < open_before.len() && open_before[j] == a;
                                assert(stack@[j] == a);
                            }
                        }
                    },
                }
            },
            _ => {},
        }
        address += 1;
    }
    if stack.len() > 0 {
        let first = stack[0];
        proof {
            assert(unmatched_open(program@, first as int));
            assert forall|a: int| 0 <= a < first implies !unmatched_open(program@, a) by {
                if program[a] is LoopOpen {
                    let key = a as usize;
                    if table@.contains_key(key) {
                        assert(is_matching_pair(program@, a, table@[key] as int));
                        assert(nesting(program@, table@[key] + 1) == nesting(program@, a));
                    } else {
                        let j = choose|j: int| 0 <= j < stack.len() && stack[j] == key;
                        assert(stack[0] <= stack[j]);
                    }
                }
            }
        }
        return Err(CompileError::UnmatchedLoopOpen { address: first });
    }
    proof {
        assert forall|a: usize|
            a < program.len() && (program[a as int] is LoopOpen
                || program[a as int] is LoopClose) implies #[trigger] table@.contains_key(a) by {
            if program[a as int] is LoopOpen && !table@.contains_key(a) {
                assert(stack@.contains(a));
            }
        }
        lemma_jump_table_symmetric(program@, table@);
    }
    Ok(table)
}

} // verus!
