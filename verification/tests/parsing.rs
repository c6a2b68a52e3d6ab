use dice_parser::dice_roll::{DiceRoll, Operation, RollType};
use dice_parser::dice_roll_with_op::DiceRollWithOp;
use dice_parser::error::ParserError;
use dice_parser::parse_line;

fn roll(sides: u32, modifier: Option<i32>, count: u32, roll_type: RollType) -> DiceRoll {
    DiceRoll::new(sides, modifier, count, roll_type)
}

fn entry(r: DiceRoll, op: Operation) -> DiceRollWithOp {
    DiceRollWithOp::new(r, op)
}

#[test]
fn count_sides_and_positive_modifier() {
    let parsed = parse_line("4d6+2").unwrap();
    let expected = vec![vec![entry(
        roll(6, Some(2), 4, RollType::Regular),
        Operation::Addition,
    )]];
    assert_eq!(parsed, expected);
}

#[test]
fn omitted_count_defaults_to_one() {
    let parsed = parse_line("d20").unwrap();
    let expected = vec![vec![entry(
        roll(20, None, 1, RollType::Regular),
        Operation::Addition,
    )]];
    assert_eq!(parsed, expected);
    assert_eq!(parse_line("d20").unwrap(), parse_line("1d20").unwrap());
}

#[test]
fn subtraction_modifier_is_stored_negated() {
    let parsed = parse_line("1d6-2").unwrap();
    let expected = vec![vec![entry(
        roll(6, Some(-2), 1, RollType::Regular),
        Operation::Addition,
    )]];
    assert_eq!(parsed, expected);
}

#[test]
fn advantage_suffix() {
    let parsed = parse_line("1d20a").unwrap();
    let expected = vec![vec![entry(
        roll(20, None, 1, RollType::WithAdvantage),
        Operation::Addition,
    )]];
    assert_eq!(parsed, expected);
}

#[test]
fn disadvantage_suffix() {
    let parsed = parse_line("1d20d").unwrap();
    let expected = vec![vec![entry(
        roll(20, None, 1, RollType::WithDisadvantage),
        Operation::Addition,
    )]];
    assert_eq!(parsed, expected);
}

#[test]
fn no_suffix_is_regular() {
    let parsed = parse_line("1d20").unwrap();
    let expected = vec![vec![entry(
        roll(20, None, 1, RollType::Regular),
        Operation::Addition,
    )]];
    assert_eq!(parsed, expected);
}

#[test]
fn uppercase_separator_and_suffix() {
    let parsed = parse_line("1D20A").unwrap();
    let expected = vec![vec![entry(
        roll(20, None, 1, RollType::WithAdvantage),
        Operation::Addition,
    )]];
    assert_eq!(parsed, expected);
}

#[test]
fn suffix_letter_before_digits_is_no_suffix() {
    // The disadvantage letter is only a suffix before an operator, a
    // comma or the end; `1d20d4` leaves `d4` unconsumed (there is no
    // operator to chain it), so the line is rejected as leftover text.
    let err = parse_line("1d20d4").unwrap_err();
    match err {
        ParserError::ParseError(m) => {
            assert_eq!(m, "Expected remaining input to be empty, found: d4");
        }
        other => panic!("expected ParseError, got {:?}", other),
    }
}

#[test]
fn suffix_followed_by_operator_chains() {
    let parsed = parse_line("1d20a+d4").unwrap();
    let expected = vec![vec![
        entry(roll(20, None, 1, RollType::WithAdvantage), Operation::Addition),
        entry(roll(4, None, 1, RollType::Regular), Operation::Addition),
    ]];
    assert_eq!(parsed, expected);
}

#[test]
fn chained_terms_accumulate_in_order() {
    let parsed = parse_line("1d4+2d6-1d8").unwrap();
    let expected = vec![vec![
        entry(roll(4, None, 1, RollType::Regular), Operation::Addition),
        entry(roll(6, None, 2, RollType::Regular), Operation::Addition),
        entry(roll(8, None, 1, RollType::Regular), Operation::Subtraction),
    ]];
    assert_eq!(parsed, expected);
}

#[test]
fn trailing_number_is_a_modifier_of_the_last_term() {
    // `-3` cannot begin a dice term, so it reads as the modifier of
    // the term before it.
    let parsed = parse_line("1d6+2d4-3").unwrap();
    let expected = vec![vec![
        entry(roll(6, None, 1, RollType::Regular), Operation::Addition),
        entry(roll(4, Some(-3), 2, RollType::Regular), Operation::Addition),
    ]];
    assert_eq!(parsed, expected);
}

#[test]
fn modifier_not_split_from_following_dice_term() {
    // `+2` is not a modifier here because `d4` follows immediately.
    let parsed = parse_line("1d6+2d4").unwrap();
    let expected = vec![vec![
        entry(roll(6, None, 1, RollType::Regular), Operation::Addition),
        entry(roll(4, None, 2, RollType::Regular), Operation::Addition),
    ]];
    assert_eq!(parsed, expected);
}

#[test]
fn groups_split_on_comma() {
    let parsed = parse_line("1d6,2d8").unwrap();
    let expected = vec![
        vec![entry(roll(6, None, 1, RollType::Regular), Operation::Addition)],
        vec![entry(roll(8, None, 2, RollType::Regular), Operation::Addition)],
    ];
    assert_eq!(parsed, expected);
}

#[test]
fn whitespace_anywhere_is_ignored() {
    assert_eq!(parse_line("1 d 6 + 2").unwrap(), parse_line("1d6+2").unwrap());
    assert_eq!(
        parse_line("  2 d 6 , 1 d 8  ").unwrap(),
        parse_line("2d6,1d8").unwrap()
    );
}

#[test]
fn trailing_tab_is_trimmed() {
    assert_eq!(parse_line("1d6\t").unwrap(), parse_line("1d6").unwrap());
}

#[test]
fn trailing_text_is_rejected() {
    let err = parse_line("1d6extra").unwrap_err();
    match err {
        ParserError::ParseError(m) => {
            assert_eq!(m, "Expected remaining input to be empty, found: extra");
        }
        other => panic!("expected ParseError, got {:?}", other),
    }
}

#[test]
fn trailing_comma_is_rejected() {
    let err = parse_line("1d6,").unwrap_err();
    match err {
        ParserError::ParseError(m) => {
            assert_eq!(m, "Expected remaining input to be empty, found: ,");
        }
        other => panic!("expected ParseError, got {:?}", other),
    }
}

#[test]
fn missing_count_and_sides_is_rejected() {
    let err = parse_line("dd6").unwrap_err();
    match err {
        ParserError::ParseError(m) => {
            assert_eq!(m, "could not parse dice notation at: dd6");
        }
        other => panic!("expected ParseError, got {:?}", other),
    }
}

#[test]
fn non_numeric_sides_is_rejected() {
    assert!(matches!(parse_line("1dX"), Err(ParserError::ParseError(_))));
}

#[test]
fn count_overflow_is_invalid_number() {
    assert_eq!(
        parse_line("4294967296d6").unwrap_err(),
        ParserError::InvalidNumberInput
    );
}

#[test]
fn sides_overflow_is_invalid_number() {
    assert_eq!(
        parse_line("1d4294967296").unwrap_err(),
        ParserError::InvalidNumberInput
    );
}

#[test]
fn modifier_overflow_is_invalid_number() {
    assert_eq!(
        parse_line("1d6+2147483648").unwrap_err(),
        ParserError::InvalidNumberInput
    );
}

#[test]
fn largest_values_parse() {
    let parsed = parse_line("4294967295d4294967295-2147483647").unwrap();
    let expected = vec![vec![entry(
        roll(4294967295, Some(-2147483647), 4294967295, RollType::Regular),
        Operation::Addition,
    )]];
    assert_eq!(parsed, expected);
}

#[test]
fn empty_input_is_rejected() {
    let err = parse_line("").unwrap_err();
    match err {
        ParserError::ParseError(m) => {
            assert_eq!(m, "could not parse dice notation at: ");
        }
        other => panic!("expected ParseError, got {:?}", other),
    }
}

#[test]
fn spaces_only_input_is_rejected() {
    assert!(matches!(parse_line("   "), Err(ParserError::ParseError(_))));
}

#[test]
fn leading_operator_sets_first_operation() {
    let plus = parse_line("+1d6").unwrap();
    assert_eq!(plus[0][0].operation, Operation::Addition);
    let minus = parse_line("-1d6").unwrap();
    assert_eq!(minus[0][0].operation, Operation::Subtraction);
}

#[test]
fn modifier_and_suffix_together() {
    let parsed = parse_line("2d20+3a").unwrap();
    let expected = vec![vec![entry(
        roll(20, Some(3), 2, RollType::WithAdvantage),
        Operation::Addition,
    )]];
    assert_eq!(parsed, expected);
}

#[test]
fn groups_with_modifier_and_suffix() {
    let parsed = parse_line("2d6+3,1d20a").unwrap();
    let expected = vec![
        vec![entry(roll(6, Some(3), 2, RollType::Regular), Operation::Addition)],
        vec![entry(roll(20, None, 1, RollType::WithAdvantage), Operation::Addition)],
    ];
    assert_eq!(parsed, expected);
}

#[test]
fn zero_count_and_zero_sides_are_permitted() {
    let parsed = parse_line("0d0").unwrap();
    let expected = vec![vec![entry(
        roll(0, None, 0, RollType::Regular),
        Operation::Addition,
    )]];
    assert_eq!(parsed, expected);
}

#[test]
fn dangling_operator_is_rejected() {
    assert!(matches!(parse_line("1d6+"), Err(ParserError::ParseError(_))));
}
