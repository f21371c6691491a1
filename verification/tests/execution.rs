use sac::interpreter::{execute, Execution, Interpreter, RAM_SIZE};
use sac::jumps::CompileError;
use sac::machine::{Action, Event, RuntimeFault, Termination};

const PLENTY: usize = 10_000_000;

fn run(source: &str, input: &[u8]) -> (Interpreter, Execution) {
    let mut interpreter = Interpreter::new();
    interpreter.load_program(source);
    let execution = interpreter.interpret(input, PLENTY).unwrap();
    (interpreter, execution)
}

fn tape(interpreter: &Interpreter) -> Vec<u8> {
    (0..RAM_SIZE)
        .map(|address| interpreter.cell(address).unwrap())
        .collect()
}

#[test]
fn four_times_four_is_sixteen() {
    let (interpreter, execution) = run("++++[>++++<-]>.", &[]);
    assert_eq!(execution.output, vec![16]);
    assert_eq!(execution.termination, Termination::Finished);
    assert_eq!(execution.consumed, 0);
    assert_eq!(interpreter.memory_pointer(), 1);
    assert_eq!(interpreter.cell(0), Some(0));
    assert_eq!(interpreter.cell(1), Some(16));
    assert_eq!(interpreter.instruction_pointer(), 9);
}

#[test]
fn three_minus_seven_wraps_to_252() {
    let (interpreter, execution) = run("+++.-------.", &[]);
    assert_eq!(execution.output, vec![3, 252]);
    assert_eq!(execution.termination, Termination::Finished);
    assert_eq!(interpreter.cell(0), Some(252));
}

#[test]
fn two_sources_on_one_tape() {
    let mut interpreter = Interpreter::new();
    interpreter.load_program("+++.");
    let first = interpreter.interpret(&[], PLENTY).unwrap();
    assert_eq!(first.output, vec![3]);
    assert_eq!(first.termination, Termination::Finished);
    interpreter.load_program("-------.");
    let second = interpreter.interpret(&[], PLENTY).unwrap();
    assert_eq!(second.output, vec![252]);
    assert_eq!(second.termination, Termination::Finished);
}

#[test]
fn empty_source_finishes_at_once() {
    let mut interpreter = Interpreter::new();
    interpreter.load_program("");
    assert!(interpreter.program().is_empty());
    let execution = interpreter.interpret(&[], 0).unwrap();
    assert_eq!(
        execution,
        Execution {
            output: vec![],
            consumed: 0,
            termination: Termination::Finished,
        }
    );
    assert_eq!(interpreter.instruction_pointer(), 0);
    assert_eq!(interpreter.memory_pointer(), 0);
}

#[test]
fn source_of_comments_finishes_at_once() {
    let (_, execution) = run("this program does nothing at all", &[1, 2, 3]);
    assert_eq!(execution.output, vec![]);
    assert_eq!(execution.consumed, 0);
    assert_eq!(execution.termination, Termination::Finished);
}

#[test]
fn input_byte_comes_out_unchanged() {
    let (interpreter, execution) = run(",.", &[65]);
    assert_eq!(execution.output, vec![65]);
    assert_eq!(execution.consumed, 1);
    assert_eq!(execution.termination, Termination::Finished);
    assert_eq!(interpreter.cell(0), Some(65));
}

#[test]
fn every_byte_value_passes_through() {
    let input: Vec<u8> = (0..=255).collect();
    let (_, execution) = run(&",.".repeat(256), &input);
    assert_eq!(execution.output, input);
    assert_eq!(execution.consumed, 256);
}

#[test]
fn input_is_read_in_order() {
    let (interpreter, execution) = run(",>,>,<.<.", &[10, 20, 30, 40]);
    assert_eq!(execution.output, vec![20, 10]);
    assert_eq!(execution.consumed, 3);
    assert_eq!(interpreter.cell(2), Some(30));
}

#[test]
fn echo_until_zero() {
    let (_, execution) = run(",[.,]", b"tape\0rest");
    assert_eq!(execution.output, b"tape".to_vec());
    assert_eq!(execution.consumed, 5);
    assert_eq!(execution.termination, Termination::Finished);
}

#[test]
fn reading_past_the_input_is_a_fault() {
    let (interpreter, execution) = run("+.,.", &[]);
    assert_eq!(execution.output, vec![1]);
    assert_eq!(execution.consumed, 0);
    assert_eq!(
        execution.termination,
        Termination::Fault(RuntimeFault::InputExhausted)
    );
    assert_eq!(interpreter.instruction_pointer(), 2);
    assert_eq!(interpreter.cell(0), Some(1));

    let (_, execution) = run(",.,.", &[7]);
    assert_eq!(execution.output, vec![7]);
    assert_eq!(execution.consumed, 1);
    assert_eq!(
        execution.termination,
        Termination::Fault(RuntimeFault::InputExhausted)
    );
}

#[test]
fn pointer_past_the_upper_bound_is_a_fault() {
    let source = format!("+++.{}.", ">".repeat(RAM_SIZE));
    let (interpreter, execution) = run(&source, &[]);
    assert_eq!(execution.output, vec![3]);
    assert_eq!(
        execution.termination,
        Termination::Fault(RuntimeFault::PointerOutOfBounds)
    );
    assert!(interpreter.memory_pointer() < RAM_SIZE);
    assert_eq!(interpreter.cell(0), Some(3));
    let mut expected = vec![0; RAM_SIZE];
    expected[0] = 3;
    assert_eq!(tape(&interpreter), expected);
}

#[test]
fn pointer_walking_off_in_a_loop_is_a_fault() {
    let (interpreter, execution) = run("+[>+]", &[]);
    assert_eq!(
        execution.termination,
        Termination::Fault(RuntimeFault::PointerOutOfBounds)
    );
    assert_eq!(interpreter.memory_pointer(), RAM_SIZE - 1);
    assert_eq!(tape(&interpreter), vec![1; RAM_SIZE]);
}

#[test]
fn pointer_past_the_lower_bound_is_a_fault() {
    let (interpreter, execution) = run("+.><<.", &[]);
    assert_eq!(execution.output, vec![1]);
    assert_eq!(
        execution.termination,
        Termination::Fault(RuntimeFault::PointerOutOfBounds)
    );
    assert_eq!(interpreter.memory_pointer(), 1);
}

#[test]
fn unmatched_loop_open_is_refused_before_anything_runs() {
    let mut interpreter = Interpreter::new();
    interpreter.load_program("+.[");
    assert_eq!(
        interpreter.interpret(&[], PLENTY),
        Err(CompileError::UnmatchedLoopOpen { address: 2 })
    );
    assert_eq!(interpreter.instruction_pointer(), 0);
    assert_eq!(interpreter.cell(0), Some(0));
}

#[test]
fn unmatched_loop_close_is_refused_before_anything_runs() {
    let mut interpreter = Interpreter::new();
    interpreter.load_program("+.]");
    assert_eq!(
        interpreter.interpret(&[], PLENTY),
        Err(CompileError::UnmatchedLoopClose { address: 2 })
    );
    assert_eq!(interpreter.instruction_pointer(), 0);
    assert_eq!(interpreter.cell(0), Some(0));
}

#[test]
fn endless_loop_stops_at_the_step_limit() {
    let mut interpreter = Interpreter::new();
    interpreter.load_program("+[.]");
    let execution = interpreter.interpret(&[], 1 + 3 * 5).unwrap();
    assert_eq!(execution.termination, Termination::StepLimit);
    assert_eq!(execution.output, vec![1; 5]);
}

#[test]
fn step_limit_counts_executed_instructions() {
    let mut interpreter = Interpreter::new();
    interpreter.load_program("+>+>+");
    let execution = interpreter.interpret(&[], 4).unwrap();
    assert_eq!(execution.termination, Termination::StepLimit);
    assert_eq!(interpreter.instruction_pointer(), 4);

    let mut interpreter = Interpreter::new();
    interpreter.load_program("+>+>+");
    let execution = interpreter.interpret(&[], 5).unwrap();
    assert_eq!(execution.termination, Termination::Finished);
    assert_eq!(interpreter.instruction_pointer(), 5);
}

#[test]
fn interrupted_run_can_be_resumed() {
    let source = "++++++++[>++++++++<-]>+.+.+.";
    let (whole_machine, whole) = run(source, &[]);
    assert_eq!(whole.output, b"ABC".to_vec());

    let mut interpreter = Interpreter::new();
    interpreter.load_program(source);
    let mut output = Vec::new();
    let mut rounds = 0;
    loop {
        let part = interpreter.interpret(&[], 7).unwrap();
        output.extend(part.output);
        rounds += 1;
        if part.termination != Termination::StepLimit {
            assert_eq!(part.termination, whole.termination);
            break;
        }
    }
    assert!(rounds > 1);
    assert_eq!(output, whole.output);
    assert_eq!(tape(&interpreter), tape(&whole_machine));
    assert_eq!(interpreter.memory_pointer(), whole_machine.memory_pointer());
}

#[test]
fn more_steps_than_needed_change_nothing() {
    let source = "+++[>++<-]>.";
    let mut short = Interpreter::new();
    short.load_program(source);
    let first = short.interpret(&[], 30).unwrap();
    assert_eq!(first.termination, Termination::Finished);
    let mut long = Interpreter::new();
    long.load_program(source);
    let second = long.interpret(&[], PLENTY).unwrap();
    assert_eq!(first, second);
    assert_eq!(tape(&short), tape(&long));
}

#[test]
fn same_source_and_input_give_the_same_run() {
    let source = ",[>+<-]>[<++>-]<.,[.,]";
    let input = [21, 1, 2, 3];
    let (first_machine, first) = run(source, &input);
    let (second_machine, second) = run(source, &input);
    assert_eq!(first.output, vec![42, 1, 2, 3]);
    assert_eq!(
        first.termination,
        Termination::Fault(RuntimeFault::InputExhausted)
    );
    assert_eq!(first, second);
    assert_eq!(tape(&first_machine), tape(&second_machine));
    assert_eq!(
        first_machine.memory_pointer(),
        second_machine.memory_pointer()
    );
    assert_eq!(
        first_machine.instruction_pointer(),
        second_machine.instruction_pointer()
    );
}

#[test]
fn stepping_by_hand_agrees_with_interpret() {
    let source = ",>,<[>+<-]>.";
    let input = [30, 12];
    let (buffered_machine, buffered) = run(source, &input);
    assert_eq!(buffered.output, vec![42]);

    let mut interpreter = Interpreter::new();
    interpreter.load_program(source);
    assert_eq!(interpreter.precompute_jumps(), Ok(()));
    let mut output = Vec::new();
    let mut consumed = 0;
    let mut event = Event::Resume;
    loop {
        match interpreter.step(event) {
            Action::Continue => event = Event::Resume,
            Action::WriteByte(byte) => {
                output.push(byte);
                event = Event::Resume;
            }
            Action::ReadByte => {
                event = Event::InputByte(input[consumed]);
                consumed += 1;
            }
            Action::Halt => break,
            Action::Fault(fault) => panic!("unexpected {:?}", fault),
        }
    }
    assert_eq!(output, buffered.output);
    assert_eq!(consumed, buffered.consumed);
    assert_eq!(tape(&interpreter), tape(&buffered_machine));
}

#[test]
fn collapsed_and_uncollapsed_programs_leave_the_same_tape() {
    let source = "+++>>++<->>>----<<<<+++++>-";
    let (collapsed, first) = run(source, &[]);
    assert!(collapsed.program().len() < source.len());

    let mut uncollapsed = Interpreter::new();
    for symbol in source.chars() {
        uncollapsed.load_program(&symbol.to_string());
    }
    assert_eq!(uncollapsed.program().len(), source.len());
    let second = uncollapsed.interpret(&[], PLENTY).unwrap();

    assert_eq!(first, second);
    assert_eq!(first.termination, Termination::Finished);
    assert_eq!(tape(&collapsed), tape(&uncollapsed));
    assert_eq!(collapsed.memory_pointer(), uncollapsed.memory_pointer());
    assert_eq!(collapsed.cell(0), Some(8));
    assert_eq!(collapsed.cell(1), Some(254));
    assert_eq!(collapsed.cell(2), Some(2));
    assert_eq!(collapsed.cell(4), Some(252));
}

#[test]
fn collapsed_and_uncollapsed_programs_fault_alike() {
    let source = "++>+<<<+";
    let (collapsed, first) = run(source, &[]);
    let mut uncollapsed = Interpreter::new();
    for symbol in source.chars() {
        uncollapsed.load_program(&symbol.to_string());
    }
    let second = uncollapsed.interpret(&[], PLENTY).unwrap();
    assert_eq!(
        first.termination,
        Termination::Fault(RuntimeFault::PointerOutOfBounds)
    );
    assert_eq!(first, second);
    assert_eq!(tape(&collapsed), tape(&uncollapsed));
    assert_eq!(collapsed.memory_pointer(), 1);
    assert_eq!(uncollapsed.memory_pointer(), 0);
}

#[test]
fn collapsed_and_uncollapsed_programs_with_loops_agree() {
    let source = ",>,<[->>+++<<]>[->>++<<]>.>[-]<<<++[>++[>+++<-]<-]>>.";
    let input = [3, 4];
    let (collapsed, first) = run(source, &input);
    assert_eq!(first.output, vec![9, 21]);
    assert_eq!(first.termination, Termination::Finished);

    let mut uncollapsed = Interpreter::new();
    for symbol in source.chars() {
        uncollapsed.load_program(&symbol.to_string());
    }
    assert_eq!(uncollapsed.program().len(), source.len());
    assert!(collapsed.program().len() < source.len());
    let second = uncollapsed.interpret(&input, PLENTY).unwrap();

    assert_eq!(first, second);
    assert_eq!(tape(&collapsed), tape(&uncollapsed));
    assert_eq!(collapsed.memory_pointer(), uncollapsed.memory_pointer());
}

#[test]
fn split_run_moves_as_far_as_the_whole_run() {
    let (interpreter, execution) = run(&format!("{}+", ">".repeat(1000)), &[]);
    assert_eq!(execution.termination, Termination::Finished);
    assert_eq!(interpreter.program().len(), 5);
    assert_eq!(interpreter.memory_pointer(), 1000);
    assert_eq!(interpreter.cell(1000), Some(1));

    let (interpreter, _) = run(&"+".repeat(300), &[]);
    assert_eq!(interpreter.cell(0), Some(44));
}

#[test]
fn prints_hello_world() {
    let source = "++++++++[>++++[>++>+++>+++>+<<<<-]>+>+>->>+[<]<-]>>.>---.+++++++..+++.\
                  >>.<-.<.+++.------.--------.>>+.>++.";
    let (_, execution) = run(source, &[]);
    assert_eq!(execution.output, b"Hello World!\n".to_vec());
    assert_eq!(execution.termination, Termination::Finished);
}

#[test]
fn execute_loads_and_interprets() {
    let (interpreter, result) = execute("++++[>++++<-]>.", &[], PLENTY);
    assert_eq!(
        result,
        Ok(Execution {
            output: vec![16],
            consumed: 0,
            termination: Termination::Finished,
        })
    );
    assert_eq!(interpreter.memory_pointer(), 1);
    assert_eq!(interpreter.program().len(), 9);
    assert_eq!(interpreter.jump_target(1), Some(6));
}

#[test]
fn execute_agrees_with_the_single_calls() {
    let source = ",[>+<-]>.";
    let (by_hand, expected) = run(source, &[5]);
    let (interpreter, result) = execute(source, &[5], PLENTY);
    assert_eq!(result, Ok(expected));
    assert_eq!(tape(&interpreter), tape(&by_hand));
    assert_eq!(interpreter.program(), by_hand.program());
}

#[test]
fn execute_refuses_unmatched_brackets() {
    let (interpreter, result) = execute("+[[-]", &[], PLENTY);
    assert_eq!(result, Err(CompileError::UnmatchedLoopOpen { address: 1 }));
    assert_eq!(interpreter.cell(0), Some(0));
    assert_eq!(interpreter.instruction_pointer(), 0);
    assert_eq!(interpreter.jump_target(2), None);

    let (_, result) = execute("+]-[", &[], PLENTY);
    assert_eq!(result, Err(CompileError::UnmatchedLoopClose { address: 1 }));
}
