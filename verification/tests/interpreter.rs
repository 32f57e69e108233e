use brainfuck::executor::{execute, run, Machine, RunError, INITIAL_CURSOR, TAPE_LENGTH};
use brainfuck::instruction::Instruction;
use brainfuck::scanner::{lexer, uses_input};
use brainfuck::structurer::{parser, ParseError};
use brainfuck::token::Token;

const FUEL: u64 = 1_000_000;

fn leaves(instructions: &Vec<Instruction>) -> usize {
    let mut n = 0;
    for inst in instructions {
        match inst {
            Instruction::Loop(body) => n += leaves(body),
            _ => n += 1,
        }
    }
    n
}

#[test]
fn lexer_maps_the_eight_characters() {
    let tokens = lexer("><+-.,[]");
    assert_eq!(
        tokens,
        vec![
            Token::IncrementPointer,
            Token::DecrementPointer,
            Token::Increment,
            Token::Decrement,
            Token::Output,
            Token::Input,
            Token::LoopOpen,
            Token::LoopClose,
        ]
    );
}

#[test]
fn lexer_skips_comments() {
    let tokens = lexer("a + b - c!");
    assert_eq!(tokens, vec![Token::Increment, Token::Decrement]);
}

#[test]
fn lexer_of_empty_source_is_empty() {
    assert_eq!(lexer(""), vec![]);
}

#[test]
fn structurer_builds_nested_loops() {
    let instructions = parser(&lexer("+[>[-]<]")).unwrap();
    assert_eq!(instructions.len(), 2);
    assert_eq!(instructions[0], Instruction::Increment);
    match &instructions[1] {
        Instruction::Loop(outer) => {
            assert_eq!(outer.len(), 3);
            assert_eq!(outer[0], Instruction::IncrementPointer);
            match &outer[1] {
                Instruction::Loop(inner) => {
                    assert_eq!(inner.as_slice(), &[Instruction::Decrement]);
                }
                other => panic!("expected a loop, got {:?}", other),
            }
            assert_eq!(outer[2], Instruction::DecrementPointer);
        }
        other => panic!("expected a loop, got {:?}", other),
    }
}

#[test]
fn leaf_count_equals_non_bracket_characters() {
    // Only recognized characters; 10 of them are not brackets.
    let source = "+[>-]<.[,]+>";
    let non_bracket = source.chars().filter(|c| *c != '[' && *c != ']').count();
    let instructions = parser(&lexer(source)).unwrap();
    assert_eq!(leaves(&instructions), non_bracket);
}

#[test]
fn balanced_sequences_structure_without_error() {
    for source in ["", "[]", "[[]][]", "+[-[.[,]]]>", "[][][]"] {
        assert!(parser(&lexer(source)).is_ok(), "source {:?}", source);
    }
}

#[test]
fn extra_close_is_reported() {
    assert_eq!(
        parser(&lexer("]")),
        Err(ParseError::UnmatchedClose { position: 0 })
    );
    assert_eq!(
        parser(&lexer("+-]")),
        Err(ParseError::UnmatchedClose { position: 2 })
    );
    assert_eq!(
        parser(&lexer("[]]")),
        Err(ParseError::UnmatchedClose { position: 2 })
    );
}

#[test]
fn unmatched_open_is_reported() {
    assert_eq!(
        parser(&lexer("[")),
        Err(ParseError::UnmatchedOpen { position: 0 })
    );
    assert_eq!(
        parser(&lexer("+[")),
        Err(ParseError::UnmatchedOpen { position: 1 })
    );
    assert_eq!(
        parser(&lexer("[[]")),
        Err(ParseError::UnmatchedOpen { position: 0 })
    );
}

#[test]
fn structurer_is_deterministic() {
    let tokens = lexer("+[>[-]<]..[,]");
    let first = parser(&tokens);
    let second = parser(&tokens);
    assert_eq!(first, second);
}

#[test]
fn increment_wraps_at_255() {
    // A cell already at 255, incremented once, reads 0.
    let mut m = Machine {
        tape: vec![255],
        cursor: 0,
        input: vec![],
        consumed: 0,
        output: vec![],
    };
    let instructions = parser(&lexer("+.")).unwrap();
    let r = run(&instructions, &mut m, FUEL);
    assert_eq!(r, Ok(()));
    assert_eq!(m.output, vec![0]);
}

#[test]
fn decrement_wraps_at_0() {
    // Cells start at zero, so one decrement reads 255.
    let (m, r) = execute(&parser(&lexer("-.")).unwrap(), vec![], FUEL);
    assert_eq!(r, Ok(()));
    assert_eq!(m.output, vec![255]);
}

#[test]
fn loop_on_zero_cell_runs_its_body_zero_times() {
    // The body would emit output and change cells if it ran even once.
    let (m, r) = execute(&parser(&lexer("[.+]")).unwrap(), vec![], FUEL);
    assert_eq!(r, Ok(()));
    assert_eq!(m.output, vec![]);
    assert!(m.tape.iter().all(|&b| b == 0));
}

#[test]
fn runs_the_classic_greeting_prefix() {
    // The opening of the classic greeting program: its nested loops leave 72
    // in the third cell, and the single output emits it.
    let source = "++++++++[>++++[>++>+++>+++>+<<<<-]>+>+>->>+[<]<-]>>.";
    let instructions = parser(&lexer(source)).unwrap();
    let (m, r) = execute(&instructions, vec![], FUEL);
    assert_eq!(r, Ok(()));
    assert_eq!(m.output, vec![72]);
}

#[test]
fn prints_a() {
    // 8 * 8 + 1 = 65.
    let source = "++++++++[>++++++++<-]>+.";
    let instructions = parser(&lexer(source)).unwrap();
    let (m, r) = execute(&instructions, vec![], FUEL);
    assert_eq!(r, Ok(()));
    assert_eq!(m.output, vec![65]);
}

#[test]
fn echoes_one_input_byte() {
    let instructions = parser(&lexer(",.")).unwrap();
    let (m, r) = execute(&instructions, vec![0x41], FUEL);
    assert_eq!(r, Ok(()));
    assert_eq!(m.output, vec![0x41]);
    assert_eq!(m.consumed, 1);
}

#[test]
fn unmatched_open_never_reaches_execution() {
    let tokens = lexer("[");
    match parser(&tokens) {
        Err(ParseError::UnmatchedOpen { position }) => assert_eq!(position, 0),
        other => panic!("expected a structural error, got {:?}", other),
    }
}

#[test]
fn unmatched_close_never_reaches_execution() {
    let tokens = lexer("]");
    match parser(&tokens) {
        Err(ParseError::UnmatchedClose { position }) => assert_eq!(position, 0),
        other => panic!("expected a structural error, got {:?}", other),
    }
}

#[test]
fn comment_only_source_is_a_no_op() {
    let tokens = lexer("hello world");
    assert_eq!(tokens, vec![]);
    let instructions = parser(&tokens).unwrap();
    assert_eq!(instructions, vec![]);
    let (m, r) = execute(&instructions, vec![], FUEL);
    assert_eq!(r, Ok(()));
    assert_eq!(m.output, vec![]);
}

#[test]
fn machine_starts_zeroed_at_the_middle() {
    let m = Machine::new(vec![1, 2, 3]);
    assert_eq!(m.tape.len(), TAPE_LENGTH);
    assert_eq!(m.cursor, INITIAL_CURSOR);
    assert!(m.tape.iter().all(|&b| b == 0));
    assert_eq!(m.input, vec![1, 2, 3]);
    assert_eq!(m.consumed, 0);
    assert_eq!(m.output, vec![]);
}

#[test]
fn cursor_cannot_move_below_the_tape() {
    let mut m = Machine {
        tape: vec![7, 7],
        cursor: 0,
        input: vec![],
        consumed: 0,
        output: vec![],
    };
    let instructions = parser(&lexer(".<.")).unwrap();
    let r = run(&instructions, &mut m, FUEL);
    assert_eq!(r, Err(RunError::CursorOutOfBounds));
    // The output emitted before the fault stays.
    assert_eq!(m.output, vec![7]);
}

#[test]
fn cursor_cannot_move_past_the_tape() {
    let mut m = Machine {
        tape: vec![0, 0],
        cursor: 0,
        input: vec![],
        consumed: 0,
        output: vec![],
    };
    let instructions = parser(&lexer(">>")).unwrap();
    let r = run(&instructions, &mut m, FUEL);
    assert_eq!(r, Err(RunError::CursorOutOfBounds));
    assert_eq!(m.cursor, 1);
}

#[test]
fn exhausted_input_is_a_fault() {
    let instructions = parser(&lexer(",,")).unwrap();
    let (m, r) = execute(&instructions, vec![9], FUEL);
    assert_eq!(r, Err(RunError::InputExhausted));
    assert_eq!(m.consumed, 1);
}

#[test]
fn an_endless_loop_runs_out_of_fuel() {
    let instructions = parser(&lexer("+[]")).unwrap();
    let (_, r) = execute(&instructions, vec![], 10);
    assert_eq!(r, Err(RunError::OutOfFuel));
}

#[test]
fn more_fuel_finishes_what_little_fuel_cut_short() {
    // Eight passes of the loop are needed; two units of fuel are not enough.
    let source = "++++++++[-].";
    let instructions = parser(&lexer(source)).unwrap();
    let (_, starved) = execute(&instructions, vec![], 2);
    assert_eq!(starved, Err(RunError::OutOfFuel));
    let (m, r) = execute(&instructions, vec![], FUEL);
    assert_eq!(r, Ok(()));
    assert_eq!(m.output, vec![0]);
}

#[test]
fn uses_input_sees_the_input_token() {
    assert!(uses_input(&lexer("+[,]")));
    assert!(!uses_input(&lexer("+[.]")));
    assert!(!uses_input(&lexer("")));
}
