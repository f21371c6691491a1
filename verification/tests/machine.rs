use sac::interpreter::{Interpreter, RAM_SIZE};
use sac::machine::{Action, Event, RuntimeFault};

fn loaded(source: &str) -> Interpreter {
    let mut interpreter = Interpreter::new();
    interpreter.load_program(source);
    assert_eq!(interpreter.precompute_jumps(), Ok(()));
    interpreter
}

#[test]
fn tape_has_a_hundred_thousand_cells() {
    assert_eq!(RAM_SIZE, 100_000);
}

#[test]
fn new_machine_is_zeroed() {
    let interpreter = Interpreter::new();
    assert_eq!(interpreter.instruction_pointer(), 0);
    assert_eq!(interpreter.memory_pointer(), 0);
    for address in 0..RAM_SIZE {
        assert_eq!(interpreter.cell(address), Some(0));
    }
    assert_eq!(interpreter.cell(RAM_SIZE), None);
    assert_eq!(interpreter.cell(usize::MAX), None);
    assert_eq!(interpreter.jump_target(0), None);
}

#[test]
fn step_at_the_end_halts_again_and_again() {
    let mut interpreter = loaded("+");
    assert_eq!(interpreter.step(Event::Resume), Action::Continue);
    for _ in 0..3 {
        assert_eq!(interpreter.step(Event::Resume), Action::Halt);
        assert_eq!(interpreter.instruction_pointer(), 1);
        assert_eq!(interpreter.cell(0), Some(1));
    }
}

#[test]
fn empty_program_halts_at_once() {
    let mut interpreter = loaded("");
    assert_eq!(interpreter.step(Event::Resume), Action::Halt);
    assert_eq!(interpreter.instruction_pointer(), 0);
}

#[test]
fn pointer_moves_by_the_count() {
    let mut interpreter = loaded(">>>>><<");
    assert_eq!(interpreter.step(Event::Resume), Action::Continue);
    assert_eq!(interpreter.memory_pointer(), 5);
    assert_eq!(interpreter.instruction_pointer(), 1);
    assert_eq!(interpreter.step(Event::Resume), Action::Continue);
    assert_eq!(interpreter.memory_pointer(), 3);
    assert_eq!(interpreter.instruction_pointer(), 2);
}

#[test]
fn cell_changes_by_the_count() {
    let mut interpreter = loaded("+++++++--");
    assert_eq!(interpreter.step(Event::Resume), Action::Continue);
    assert_eq!(interpreter.cell(0), Some(7));
    assert_eq!(interpreter.step(Event::Resume), Action::Continue);
    assert_eq!(interpreter.cell(0), Some(5));
    assert_eq!(interpreter.cell(1), Some(0));
}

#[test]
fn increment_wraps_from_255_to_0() {
    let mut interpreter = loaded(&format!("{}+", "+".repeat(255)));
    assert_eq!(interpreter.step(Event::Resume), Action::Continue);
    assert_eq!(interpreter.cell(0), Some(255));
    assert_eq!(interpreter.step(Event::Resume), Action::Continue);
    assert_eq!(interpreter.cell(0), Some(0));
}

#[test]
fn decrement_wraps_from_0_to_255() {
    let mut interpreter = loaded("-");
    assert_eq!(interpreter.step(Event::Resume), Action::Continue);
    assert_eq!(interpreter.cell(0), Some(255));
}

#[test]
fn cell_arithmetic_is_modulo_256() {
    let mut interpreter = loaded(&format!("{}.{}", "+".repeat(200), "+".repeat(100)));
    assert_eq!(interpreter.step(Event::Resume), Action::Continue);
    assert_eq!(interpreter.step(Event::Resume), Action::WriteByte(200));
    assert_eq!(interpreter.step(Event::Resume), Action::Continue);
    assert_eq!(interpreter.cell(0), Some(44));

    let mut interpreter = loaded(&format!("+++{}", "-".repeat(10)));
    assert_eq!(interpreter.step(Event::Resume), Action::Continue);
    assert_eq!(interpreter.step(Event::Resume), Action::Continue);
    assert_eq!(interpreter.cell(0), Some(249));
}

#[test]
fn decrement_undoes_increment() {
    for count in [1usize, 2, 100, 255] {
        let mut interpreter = loaded(&format!(
            "{}{}{}",
            "+".repeat(77),
            "-".repeat(count),
            "+".repeat(count)
        ));
        assert_eq!(interpreter.step(Event::Resume), Action::Continue);
        assert_eq!(interpreter.step(Event::Resume), Action::Continue);
        assert_eq!(interpreter.step(Event::Resume), Action::Continue);
        assert_eq!(interpreter.cell(0), Some(77));
    }
}

#[test]
fn output_hands_out_the_cell() {
    let mut interpreter = loaded("+++.");
    assert_eq!(interpreter.step(Event::Resume), Action::Continue);
    assert_eq!(interpreter.step(Event::Resume), Action::WriteByte(3));
    assert_eq!(interpreter.instruction_pointer(), 2);
    assert_eq!(interpreter.cell(0), Some(3));
}

#[test]
fn input_asks_before_it_stores() {
    let mut interpreter = loaded(",");
    assert_eq!(interpreter.step(Event::Resume), Action::ReadByte);
    assert_eq!(interpreter.instruction_pointer(), 0);
    assert_eq!(interpreter.cell(0), Some(0));
    assert_eq!(interpreter.step(Event::Resume), Action::ReadByte);
    assert_eq!(interpreter.step(Event::InputByte(65)), Action::Continue);
    assert_eq!(interpreter.instruction_pointer(), 1);
    assert_eq!(interpreter.cell(0), Some(65));
}

#[test]
fn input_overwrites_the_cell() {
    let mut interpreter = loaded("+++++,");
    assert_eq!(interpreter.step(Event::Resume), Action::Continue);
    assert_eq!(interpreter.step(Event::InputByte(0)), Action::Continue);
    assert_eq!(interpreter.cell(0), Some(0));
}

#[test]
fn end_of_input_is_a_fault() {
    let mut interpreter = loaded("+,");
    assert_eq!(interpreter.step(Event::Resume), Action::Continue);
    assert_eq!(interpreter.step(Event::Resume), Action::ReadByte);
    assert_eq!(
        interpreter.step(Event::EndOfInput),
        Action::Fault(RuntimeFault::InputExhausted)
    );
    assert_eq!(interpreter.instruction_pointer(), 1);
    assert_eq!(interpreter.cell(0), Some(1));
}

#[test]
fn only_input_looks_at_the_event() {
    let mut interpreter = loaded("+>.");
    assert_eq!(interpreter.step(Event::InputByte(9)), Action::Continue);
    assert_eq!(interpreter.cell(0), Some(1));
    assert_eq!(interpreter.step(Event::EndOfInput), Action::Continue);
    assert_eq!(interpreter.memory_pointer(), 1);
    assert_eq!(interpreter.step(Event::InputByte(9)), Action::WriteByte(0));
    assert_eq!(interpreter.step(Event::EndOfInput), Action::Halt);
}

#[test]
fn pointer_below_the_tape_is_a_fault() {
    let mut interpreter = loaded("<");
    assert_eq!(
        interpreter.step(Event::Resume),
        Action::Fault(RuntimeFault::PointerOutOfBounds)
    );
    assert_eq!(interpreter.memory_pointer(), 0);
    assert_eq!(interpreter.instruction_pointer(), 0);

    let mut interpreter = loaded(">>><<<<");
    assert_eq!(interpreter.step(Event::Resume), Action::Continue);
    assert_eq!(
        interpreter.step(Event::Resume),
        Action::Fault(RuntimeFault::PointerOutOfBounds)
    );
    assert_eq!(interpreter.memory_pointer(), 3);
    assert_eq!(interpreter.instruction_pointer(), 1);
}

#[test]
fn pointer_can_reach_the_last_cell() {
    let mut interpreter = loaded(&format!("{}+", ">".repeat(RAM_SIZE - 1)));
    loop {
        match interpreter.step(Event::Resume) {
            Action::Continue => {}
            Action::Halt => break,
            other => panic!("unexpected {:?}", other),
        }
    }
    assert_eq!(interpreter.memory_pointer(), RAM_SIZE - 1);
    assert_eq!(interpreter.cell(RAM_SIZE - 1), Some(1));
}

#[test]
fn pointer_above_the_tape_is_a_fault() {
    let mut interpreter = loaded(&">".repeat(RAM_SIZE));
    let mut steps = 0;
    let last = loop {
        match interpreter.step(Event::Resume) {
            Action::Continue => steps += 1,
            other => break other,
        }
    };
    assert_eq!(last, Action::Fault(RuntimeFault::PointerOutOfBounds));
    assert_eq!(steps, (RAM_SIZE - 1) / 255);
    assert_eq!(interpreter.memory_pointer(), (RAM_SIZE - 1) / 255 * 255);
    assert_eq!(interpreter.instruction_pointer(), steps);
    assert_eq!(
        interpreter.step(Event::Resume),
        Action::Fault(RuntimeFault::PointerOutOfBounds)
    );
}

#[test]
fn loop_open_on_zero_jumps_to_its_partner() {
    let mut interpreter = loaded("[+]>");
    assert_eq!(interpreter.step(Event::Resume), Action::Continue);
    assert_eq!(interpreter.instruction_pointer(), 2);
    assert_eq!(interpreter.step(Event::Resume), Action::Continue);
    assert_eq!(interpreter.instruction_pointer(), 3);
    assert_eq!(interpreter.cell(0), Some(0));
    assert_eq!(interpreter.step(Event::Resume), Action::Continue);
    assert_eq!(interpreter.memory_pointer(), 1);
    assert_eq!(interpreter.step(Event::Resume), Action::Halt);
}

#[test]
fn loop_open_on_nonzero_falls_through() {
    let mut interpreter = loaded("+[-]");
    assert_eq!(interpreter.step(Event::Resume), Action::Continue);
    assert_eq!(interpreter.step(Event::Resume), Action::Continue);
    assert_eq!(interpreter.instruction_pointer(), 2);
}

#[test]
fn loop_close_on_nonzero_jumps_to_its_partner() {
    let mut interpreter = loaded("++[-]");
    for _ in 0..3 {
        assert_eq!(interpreter.step(Event::Resume), Action::Continue);
    }
    assert_eq!(interpreter.cell(0), Some(1));
    assert_eq!(interpreter.instruction_pointer(), 3);
    assert_eq!(interpreter.step(Event::Resume), Action::Continue);
    assert_eq!(interpreter.instruction_pointer(), 1);
    assert_eq!(interpreter.step(Event::Resume), Action::Continue);
    assert_eq!(interpreter.instruction_pointer(), 2);
}

#[test]
fn loop_close_on_zero_falls_through() {
    let mut interpreter = loaded("+[-]");
    for _ in 0..3 {
        assert_eq!(interpreter.step(Event::Resume), Action::Continue);
    }
    assert_eq!(interpreter.cell(0), Some(0));
    assert_eq!(interpreter.step(Event::Resume), Action::Continue);
    assert_eq!(interpreter.instruction_pointer(), 4);
    assert_eq!(interpreter.step(Event::Resume), Action::Halt);
}

#[test]
fn jump_without_a_table_is_a_fault() {
    let mut interpreter = Interpreter::new();
    interpreter.load_program("[-]");
    assert_eq!(
        interpreter.step(Event::Resume),
        Action::Fault(RuntimeFault::MissingJumpTarget)
    );
    assert_eq!(interpreter.instruction_pointer(), 0);

    let mut interpreter = Interpreter::new();
    interpreter.load_program("+[-]");
    for _ in 0..3 {
        assert_eq!(interpreter.step(Event::Resume), Action::Continue);
    }
    assert_eq!(interpreter.step(Event::Resume), Action::Continue);
    assert_eq!(interpreter.instruction_pointer(), 4);
}
