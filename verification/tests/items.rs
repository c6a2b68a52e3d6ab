use dice_parser::dice_roll::{DiceRoll, Operation, RollType};
use dice_parser::dice_roll_with_op::DiceRollWithOp;
use dice_parser::dice_roll_from_parsed_items;
use dice_parser::error::ParserError;

#[test]
fn new_stores_every_field() {
    let r = DiceRoll::new(8, Some(-1), 3, RollType::WithDisadvantage);
    assert_eq!(r.dice_sides, 8);
    assert_eq!(r.modifier, Some(-1));
    assert_eq!(r.number_of_dice_to_roll, 3);
    assert_eq!(r.roll_type, RollType::WithDisadvantage);
}

#[test]
fn new_regular_roll_is_regular() {
    let r = DiceRoll::new_regular_roll(6, None, 2);
    assert_eq!(r, DiceRoll::new(6, None, 2, RollType::Regular));
}

#[test]
fn roll_type_default_is_regular() {
    assert_eq!(RollType::default(), RollType::Regular);
}

#[test]
fn roll_with_op_pairs_its_parts() {
    let r = DiceRoll::new_regular_roll(4, None, 1);
    let pair = DiceRollWithOp::new(r.clone(), Operation::Subtraction);
    assert_eq!(pair.dice_roll, r);
    assert_eq!(pair.operation, Operation::Subtraction);
}

#[test]
fn parsed_items_fold_the_modifier_sign() {
    let r = dice_roll_from_parsed_items(
        Some("3"),
        "6",
        Some(Operation::Subtraction),
        Some("2"),
        RollType::Regular,
    )
    .unwrap();
    assert_eq!(r, DiceRoll::new(6, Some(-2), 3, RollType::Regular));
}

#[test]
fn parsed_items_default_count_to_one() {
    let r = dice_roll_from_parsed_items(None, "20", None, None, RollType::WithAdvantage).unwrap();
    assert_eq!(r, DiceRoll::new(20, None, 1, RollType::WithAdvantage));
}

#[test]
fn parsed_items_ignore_a_modifier_value_without_operator() {
    let r = dice_roll_from_parsed_items(None, "6", None, Some("5"), RollType::Regular).unwrap();
    assert_eq!(r.modifier, None);
}

#[test]
fn parsed_items_reject_non_numeric_text() {
    assert_eq!(
        dice_roll_from_parsed_items(Some("abc"), "6", None, None, RollType::Regular),
        Err(ParserError::InvalidNumberInput)
    );
}

#[test]
fn parsed_items_reject_overflowing_count() {
    assert_eq!(
        dice_roll_from_parsed_items(Some("4294967296"), "6", None, None, RollType::Regular),
        Err(ParserError::InvalidNumberInput)
    );
}

#[test]
fn parse_error_message_includes_the_leftover_text() {
    let e = ParserError::ParseError(String::from("Expected remaining input to be empty, found: x"));
    assert_eq!(
        e.message(),
        "An error occurred while parsing the input. Expected remaining input to be empty, found: x"
    );
}

#[test]
fn fixed_error_messages() {
    assert_eq!(
        ParserError::InvalidNumberInput.message(),
        "An invalid number was entered."
    );
    assert_eq!(ParserError::Unknown.message(), "An unknown error occurred.");
}
