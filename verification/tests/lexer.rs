use sac::lexer::{Lexer, END_OF_INPUT};

fn drain(lexer: &mut Lexer) -> String {
    let mut symbols = String::new();
    loop {
        let symbol = lexer.next();
        if symbol == END_OF_INPUT {
            return symbols;
        }
        symbols.push(symbol);
    }
}

#[test]
fn end_marker_is_the_at_sign() {
    assert_eq!(END_OF_INPUT, '@');
}

#[test]
fn new_lexer_is_at_its_end() {
    let mut lexer = Lexer::new();
    assert_eq!(lexer.next(), END_OF_INPUT);
}

#[test]
fn yields_the_eight_instructions_in_order() {
    let mut lexer = Lexer::new();
    lexer.fill("><+-.,[]");
    assert_eq!(lexer.next(), '>');
    assert_eq!(lexer.next(), '<');
    assert_eq!(lexer.next(), '+');
    assert_eq!(lexer.next(), '-');
    assert_eq!(lexer.next(), '.');
    assert_eq!(lexer.next(), ',');
    assert_eq!(lexer.next(), '[');
    assert_eq!(lexer.next(), ']');
    assert_eq!(lexer.next(), END_OF_INPUT);
}

#[test]
fn skips_everything_that_is_no_instruction() {
    let mut lexer = Lexer::new();
    lexer.fill("add one: + then print\n\t. (done) @ é 1 2 3 -");
    assert_eq!(drain(&mut lexer), "+.-");
}

#[test]
fn end_marker_in_the_source_is_skipped() {
    let mut lexer = Lexer::new();
    lexer.fill("@+@@-@");
    assert_eq!(lexer.next(), '+');
    assert_eq!(lexer.next(), '-');
    assert_eq!(lexer.next(), END_OF_INPUT);
}

#[test]
fn end_of_input_is_idempotent() {
    let mut lexer = Lexer::new();
    lexer.fill("+ trailing comment");
    assert_eq!(lexer.next(), '+');
    for _ in 0..5 {
        assert_eq!(lexer.next(), END_OF_INPUT);
    }
}

#[test]
fn source_without_instructions_yields_only_the_end_marker() {
    let mut lexer = Lexer::new();
    lexer.fill("nothing to see here");
    assert_eq!(lexer.next(), END_OF_INPUT);
    assert_eq!(lexer.next(), END_OF_INPUT);
}

#[test]
fn fill_appends_behind_what_was_scanned() {
    let mut lexer = Lexer::new();
    lexer.fill("+x");
    assert_eq!(lexer.next(), '+');
    assert_eq!(lexer.next(), END_OF_INPUT);
    lexer.fill("y-");
    assert_eq!(lexer.next(), '-');
    assert_eq!(lexer.next(), END_OF_INPUT);
}

#[test]
fn fill_keeps_what_is_pending() {
    let mut lexer = Lexer::new();
    lexer.fill("+>");
    assert_eq!(lexer.next(), '+');
    lexer.fill("<");
    assert_eq!(drain(&mut lexer), "><");
}

#[test]
fn recognises_exactly_the_eight_instructions() {
    let lexer = Lexer::new();
    for c in "><+-.,[]".chars() {
        assert!(lexer.is_valid_brainfuck_instruction(c));
    }
    for c in "@ab01 \n\t(){}#!*/=_;:'\"é".chars() {
        assert!(!lexer.is_valid_brainfuck_instruction(c));
    }
}
