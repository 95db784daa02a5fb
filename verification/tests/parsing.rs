use esoparse::common::{Axis, Direction, Instruction};
use esoparse::parser::{parse, parse_program, tokenize, Context, ParseError, Token};

#[test]
fn integration() {
    let text = "M9m8x0X2ukoj[+-|.,]";
    let tokens = tokenize(text);
    assert_eq!(
        tokens,
        vec![
            Token::Move(Direction::Pos),
            Token::Digit(9),
            Token::Move(Direction::Neg),
            Token::Digit(8),
            Token::Duplicate(Direction::Neg),
            Token::Digit(0),
            Token::Duplicate(Direction::Pos),
            Token::Digit(2),
            Token::Undo,
            Token::Kill,
            Token::PlacePortal,
            Token::JumpPortal,
            Token::Open,
            Token::Inc,
            Token::Dec,
            Token::NoOp,
            Token::Read,
            Token::Write,
            Token::Close,
        ]
    );

    let mut ctx = Context::new(&tokens);
    let program = parse_program(&mut ctx).unwrap();
    assert_eq!(
        program,
        vec![
            Instruction::Move(Direction::Pos, Axis::from_digit(9).unwrap()),
            Instruction::Move(Direction::Neg, Axis::from_digit(8).unwrap()),
            Instruction::Duplicate(Direction::Neg, Axis::from_digit(0).unwrap()),
            Instruction::Duplicate(Direction::Pos, Axis::from_digit(2).unwrap()),
            Instruction::Undo,
            Instruction::Kill,
            Instruction::PlacePortal,
            Instruction::JumpPortal,
            Instruction::Loop(vec![
                Instruction::Inc,
                Instruction::Dec,
                Instruction::NoOp,
                Instruction::Read,
                Instruction::Write,
            ]),
        ]
    );
}

#[test]
fn unmatched_close() {
    assert_eq!(
        parse("[+-|[[++]M5X2]oj]m2]"),
        Err(ParseError::UnmatchedClose)
    );
}

#[test]
fn unmatched_open() {
    assert_eq!(parse("X4[+-|[[++]M5X2]ojm2"), Err(ParseError::UnmatchedOpen));
}

#[test]
fn missing_operand_at_end() {
    assert_eq!(parse("M"), Err(ParseError::MissingOperand));
    assert_eq!(parse("x"), Err(ParseError::MissingOperand));
}

#[test]
fn missing_operand_mid_stream() {
    assert_eq!(parse("M+"), Err(ParseError::MissingOperand));
    assert_eq!(parse("[X]"), Err(ParseError::MissingOperand));
}

#[test]
fn unexpected_bare_digit() {
    assert_eq!(parse("5"), Err(ParseError::UnexpectedToken));
    assert_eq!(parse("+7"), Err(ParseError::UnexpectedToken));
}

#[test]
fn unexpected_unrecognized_character() {
    assert_eq!(tokenize("z")[0], Token::Null);
    assert_eq!(parse("z"), Err(ParseError::UnexpectedToken));
    assert_eq!(parse("+ -"), Err(ParseError::UnexpectedToken));
}

#[test]
fn empty_input_is_empty_program() {
    assert_eq!(parse(""), Ok(vec![]));
}

#[test]
fn lexer_is_one_token_per_character() {
    assert_eq!(tokenize("").len(), 0);
    assert_eq!(tokenize("M9m8x0X2ukoj[+-|.,]").len(), 19);
    // unrecognized characters are kept, not dropped
    assert_eq!(tokenize("a b\nc").len(), 5);
    assert_eq!(tokenize("héllo").len(), 5);
}

#[test]
fn full_parse_of_mixed_program() {
    let program = parse("M9m8x0X2ukoj[+-|.,]").unwrap();
    assert_eq!(program.len(), 9);
    assert_eq!(
        program[8],
        Instruction::Loop(vec![
            Instruction::Inc,
            Instruction::Dec,
            Instruction::NoOp,
            Instruction::Read,
            Instruction::Write,
        ])
    );
}

#[test]
fn marker_loop_keeps_count_and_order() {
    let program = parse("[+-|.,]").unwrap();
    assert_eq!(
        program,
        vec![Instruction::Loop(vec![
            Instruction::Inc,
            Instruction::Dec,
            Instruction::NoOp,
            Instruction::Read,
            Instruction::Write,
        ])]
    );
}

#[test]
fn nested_loops() {
    let program = parse("[[++]M5X2]oj").unwrap();
    assert_eq!(
        program,
        vec![
            Instruction::Loop(vec![
                Instruction::Loop(vec![Instruction::Inc, Instruction::Inc]),
                Instruction::Move(Direction::Pos, Axis::from_digit(5).unwrap()),
                Instruction::Duplicate(Direction::Pos, Axis::from_digit(2).unwrap()),
            ]),
            Instruction::PlacePortal,
            Instruction::JumpPortal,
        ]
    );
}

#[test]
fn close_before_open_fails() {
    assert_eq!(parse("]["), Err(ParseError::UnmatchedClose));
    assert_eq!(parse("+]"), Err(ParseError::UnmatchedClose));
}

#[test]
fn open_never_closed_fails() {
    assert_eq!(parse("["), Err(ParseError::UnmatchedOpen));
    assert_eq!(parse("[[+]"), Err(ParseError::UnmatchedOpen));
}

#[test]
fn first_violation_wins() {
    // the dangling operand is hit before the unmatched open
    assert_eq!(parse("[M"), Err(ParseError::MissingOperand));
    // the unmatched close is hit before the dangling operand
    assert_eq!(parse("]M"), Err(ParseError::UnmatchedClose));
}

#[test]
fn axis_from_digit() {
    assert_eq!(Axis::from_digit(0), Some(Axis::Zero));
    assert_eq!(Axis::from_digit(9), Some(Axis::Nine));
    assert_eq!(Axis::from_digit(10), None);
    assert_eq!(Axis::from_digit(255), None);
}

#[test]
fn direction_from_bool() {
    assert_eq!(Direction::from(true), Direction::Pos);
    assert_eq!(Direction::from(false), Direction::Neg);
}

#[test]
fn direction_apply_sets_sign() {
    assert_eq!(Direction::Pos.apply(-5), 5);
    assert_eq!(Direction::Pos.apply(7), 7);
    assert_eq!(Direction::Neg.apply(3), -3);
    assert_eq!(Direction::Neg.apply(-4), -4);
    assert_eq!(Direction::Neg.apply(0), 0);
}

#[test]
fn instruction_clone_copies_the_tree() {
    let inst = Instruction::Loop(vec![
        Instruction::Inc,
        Instruction::Move(Direction::Pos, Axis::from_digit(3).unwrap()),
        Instruction::Loop(vec![Instruction::Read, Instruction::Undo]),
    ]);
    let copy = inst.clone();
    assert_eq!(copy, inst);
}

#[test]
fn digits_lex_to_their_values() {
    let tokens = tokenize("0123456789");
    for (k, t) in tokens.iter().enumerate() {
        assert_eq!(*t, Token::Digit(k as u8));
    }
}
