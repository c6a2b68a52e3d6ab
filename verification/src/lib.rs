//! A parser for tabletop-game dice-roll notation such as
//! `2d6+3,1d20a-1`: comma-separated groups of dice terms chained by
//! `+` and `-`, each term `[count]d<sides>` with an optional signed
//! modifier and an optional advantage/disadvantage suffix.
//!
//! [`parse_line`] turns one line of text into the groups it denotes,
//! or into a descriptive [`error::ParserError`].  The grammar itself
//! is stated in [`grammar`] and every recognizer here is verified
//! against it.

use vstd::prelude::*;
use vstd::std_specs::iter::IteratorSpec;
use vstd::std_specs::vec::spec_vec_len;
use vstd::string::StringExecFns;

pub mod dice_roll;
pub mod dice_roll_with_op;
pub mod error;
pub mod grammar;
pub mod laws;

use crate::dice_roll::{DiceRoll, Operation, RollType};
use crate::dice_roll_with_op::DiceRollWithOp;
use crate::error::ParserError;
use crate::grammar::{
    at_end_marker, blank_run_end, chain_at, dice_parts_at, dice_term_follows, digit_run_end,
    digits_val, group_at, groups_at, initial_at, operator_at, roll_at, roll_type_at,
    signed_modifier, spec_is_blank, spec_is_digit, ChainParse, DiceParts, GroupParse, GroupsParse,
    InitParse, RollParse,
};

verus! {

broadcast use vstd::std_specs::vec::group_vec_axioms, vstd::string::group_string_axioms;

/// Whether `c` is an ASCII decimal digit.
fn is_digit_char(c: char) -> (r: bool)
    ensures
        r == spec_is_digit(c),
{
    '0' <= c && c <= '9'
}

/// Whether `c` is a space or a tab.
fn is_blank_char(c: char) -> (r: bool)
    ensures
        r == spec_is_blank(c),
{
    c == ' ' || c == '\t'
}

/// Advances over the maximal digit run starting at `i`.
fn scan_digits(t: &Vec<char>, i: usize) -> (r: usize)
    requires
        i <= t@.len(),
    ensures
        r == digit_run_end(t@, i as int),
        i <= r <= t@.len(),
{
    let mut r: usize = i;
    while r < t.len() && is_digit_char(t[r])
        invariant
            i <= r <= t@.len(),
            digit_run_end(t@, i as int) == digit_run_end(t@, r as int),
        decreases t@.len() - r,
    {
        r = r + 1;
    }
    r
}

/// Advances over the maximal space/tab run starting at `i`.
fn scan_blanks(t: &Vec<char>, i: usize) -> (r: usize)
    requires
        i <= t@.len(),
    ensures
        r == blank_run_end(t@, i as int),
        i <= r <= t@.len(),
{
    let mut r: usize = i;
    while r < t.len() && is_blank_char(t[r])
        invariant
            i <= r <= t@.len(),
            blank_run_end(t@, i as int) == blank_run_end(t@, r as int),
        decreases t@.len() - r,
    {
        r = r + 1;
    }
    r
}

/// Recognizes the end-marker lookahead at `i` without consuming it.
fn parse_end_of_input_or_modifier(t: &Vec<char>, i: usize) -> (r: bool)
    requires
        i <= t@.len(),
    ensures
        r == at_end_marker(t@, i as int),
{
    i == t.len() || t[i] == '+' || t[i] == '-' || t[i] == ','
}

/// Reads the digit run `t[from..to)` as a base-ten number, refusing a
/// value above `max` (the largest value the caller's integer width
/// holds).  `None` reports that the run's value is too large.
fn parse_magnitude(t: &Vec<char>, from: usize, to: usize, max: u64) -> (r: Option<u64>)
    requires
        from <= to <= t@.len(),
        forall|k: int| from <= k < to ==> spec_is_digit(#[trigger] t@[k]),
        max <= u32::MAX as u64,
    ensures
        match r {
            Some(v) => v as int == digits_val(t@.subrange(from as int, to as int)) && v <= max,
            None => digits_val(t@.subrange(from as int, to as int)) > max,
        },
{
    let mut acc: u64 = 0;
    let mut k: usize = from;
    while k < to
        invariant
            from <= k <= to <= t@.len(),
            forall|j: int| from <= j < to ==> spec_is_digit(#[trigger] t@[j]),
            max <= u32::MAX as u64,
            acc as int == digits_val(t@.subrange(from as int, k as int)),
            acc <= max,
        decreases to - k,
    {
        let d: u32 = (t[k] as u32) - ('0' as u32);
        let next: u64 = acc * 10 + (d as u64);
        proof {
            let prefix = t@.subrange(from as int, (k + 1) as int);
            assert(prefix.drop_last() =~= t@.subrange(from as int, k as int));
            assert(next as int == digits_val(prefix));
        }
        if next > max {
            proof {
                let whole = t@.subrange(from as int, to as int);
                assert(whole.take(k + 1 - from) =~= t@.subrange(from as int, (k + 1) as int));
                grammar::lemma_digits_val_take(whole, k + 1 - from);
            }
            return None;
        }
        acc = next;
        k = k + 1;
    }
    Some(acc)
}

/// Recognizes one `+` or `-` at `i`, mapping it to the operation it
/// denotes; the caller advances by one character on a match.
fn parse_operator_as_value(t: &Vec<char>, i: usize) -> (r: Option<Operation>)
    requires
        i <= t@.len(),
    ensures
        r == operator_at(t@, i as int),
        r is Some ==> i < t@.len(),
{
    if i < t.len() && t[i] == '+' {
        Some(Operation::Addition)
    } else if i < t.len() && t[i] == '-' {
        Some(Operation::Subtraction)
    } else {
        None
    }
}

/// Recognizes an optional roll-type suffix at `i`: a case-insensitive
/// `a` or `d` immediately followed by an end marker; anything else is
/// a regular roll and consumes nothing.
fn parse_roll_type(t: &Vec<char>, i: usize) -> (r: (RollType, usize))
    requires
        i <= t@.len(),
    ensures
        roll_type_at(t@, i as int) == (r.0, r.1 as int),
        i <= r.1 <= t@.len(),
{
    if i < t.len() && (t[i] == 'a' || t[i] == 'A') && parse_end_of_input_or_modifier(t, i + 1) {
        (RollType::WithAdvantage, i + 1)
    } else if i < t.len() && (t[i] == 'd' || t[i] == 'D') && parse_end_of_input_or_modifier(t, i + 1)
    {
        (RollType::WithDisadvantage, i + 1)
    } else {
        (RollType::Regular, i)
    }
}

/// The lookahead that spots another `"d" digit+` pattern right after a
/// would-be modifier, without consuming anything.
fn dice_term_follows_at(t: &Vec<char>, i: usize) -> (r: bool)
    requires
        i <= t@.len(),
    ensures
        r == dice_term_follows(t@, i as int),
{
    i < t.len() && (t[i] == 'd' || t[i] == 'D') && scan_digits(t, i + 1) > i + 1
}

/// Recognizes one full dice term at `i`.  The form with a modifier is
/// tried first; when its grammar is absent the plain form is taken
/// from the same position.  A digit run whose value does not fit its
/// integer width is reported as `Err`, never silently clamped.
fn parse_roll_as_value(t: &Vec<char>, i: usize) -> (r: Result<Option<(DiceRoll, usize)>, ParserError>)
    requires
        i <= t@.len(),
    ensures
        match r {
            Ok(None) => roll_at(t@, i as int) == RollParse::NoMatch,
            Ok(Some((roll, p))) => roll_at(t@, i as int) == RollParse::Parsed(roll, p as int) && i
                < p <= t@.len(),
            Err(e) => roll_at(t@, i as int) == RollParse::Overflow && e
                == ParserError::InvalidNumberInput,
        },
{
    let j = scan_digits(t, i);
    if j == t.len() || !(t[j] == 'd' || t[j] == 'D') {
        return Ok(None);
    }
    let k = scan_digits(t, j + 1);
    if k == j + 1 {
        return Ok(None);
    }
    let ghost parts = (DiceParts { count_end: j as int, sides_end: k as int });
    proof {
        assert(dice_parts_at(t@, i as int) == Some(parts));
        grammar::lemma_digit_run_end_digits(t@, i as int);
        grammar::lemma_digit_run_end_digits(t@, j + 1 as int);
    }
    // Convert the count and sides digit runs; both forms need them.
    let count: u64 = if j == i {
        1
    } else {
        match parse_magnitude(t, i, j, 0xFFFF_FFFFu64) {
            Some(v) => v,
            None => {
                return Err(ParserError::InvalidNumberInput);
            },
        }
    };
    let sides: u64 = match parse_magnitude(t, j + 1, k, 0xFFFF_FFFFu64) {
        Some(v) => v,
        None => {
            return Err(ParserError::InvalidNumberInput);
        },
    };
    let p = k;
    if let Some(op) = parse_operator_as_value(t, p) {
        let m = scan_digits(t, p + 1);
        if m > p + 1 && !dice_term_follows_at(t, m) {
            // The modifier form's grammar matches and commits.
            proof {
                grammar::lemma_digit_run_end_digits(t@, p + 1 as int);
            }
            let magnitude: u64 = match parse_magnitude(t, p + 1, m, 0x7FFF_FFFFu64) {
                Some(v) => v,
                None => {
                    return Err(ParserError::InvalidNumberInput);
                },
            };
            let modifier: i32 = match op {
                Operation::Addition => magnitude as i32,
                Operation::Subtraction => -(magnitude as i32),
            };
            let (rt, next) = parse_roll_type(t, m);
            return Ok(
                Some(
                    (
                        DiceRoll {
                            number_of_dice_to_roll: count as u32,
                            dice_sides: sides as u32,
                            modifier: Some(modifier),
                            roll_type: rt,
                        },
                        next,
                    ),
                ),
            );
        }
    }
    let (rt, next) = parse_roll_type(t, p);
    Ok(
        Some(
            (
                DiceRoll {
                    number_of_dice_to_roll: count as u32,
                    dice_sides: sides as u32,
                    modifier: None,
                    roll_type: rt,
                },
                next,
            ),
        ),
    )
}

/// Recognizes the chained statements of a group: zero or more
/// `operator dice_term` pairs starting at `i`, in source order.  When
/// no further pair follows, an optional space/tab run is consumed and
/// the sequence so far stands, so this recognizer itself never fails
/// to match.
fn parse_statements(t: &Vec<char>, i: usize) -> (r: Result<(Vec<DiceRollWithOp>, usize), ParserError>)
    requires
        i <= t@.len(),
    ensures
        match r {
            Ok((rolls, p)) => chain_at(t@, i as int) == ChainParse::Parsed(rolls@, p as int) && i
                <= p <= t@.len(),
            Err(e) => chain_at(t@, i as int) == ChainParse::Overflow && e
                == ParserError::InvalidNumberInput,
        },
    decreases t@.len() - i,
{
    let op = match parse_operator_as_value(t, i) {
        None => {
            let b = scan_blanks(t, i);
            return Ok((Vec::new(), b));
        },
        Some(op) => op,
    };
    proof {
        assert(i < spec_vec_len(t));
    }
    match parse_roll_as_value(t, i + 1) {
        Err(e) => Err(e),
        Ok(None) => {
            let b = scan_blanks(t, i);
            Ok((Vec::new(), b))
        },
        Ok(Some((roll, p))) => {
            match parse_statements(t, p) {
                Err(e) => Err(e),
                Ok((mut tail, rest)) => {
                    let first = DiceRollWithOp { dice_roll: roll, operation: op };
                    let ghost tailv = tail@;
                    let mut rolls: Vec<DiceRollWithOp> = Vec::new();
                    rolls.push(first);
                    rolls.append(&mut tail);
                    proof {
                        assert(rolls@ =~= seq![first] + tailv);
                    }
                    Ok((rolls, rest))
                },
            }
        },
    }
}

/// Recognizes the first statement of a group: an optional leading
/// operator (defaulting to `Addition`) followed by one dice term.
fn parse_initial_statement(t: &Vec<char>, i: usize) -> (r: Result<
    Option<(DiceRollWithOp, usize)>,
    ParserError,
>)
    requires
        i <= t@.len(),
    ensures
        match r {
            Ok(None) => initial_at(t@, i as int) == InitParse::NoMatch,
            Ok(Some((first, p))) => initial_at(t@, i as int) == InitParse::Parsed(first, p as int)
                && i < p <= t@.len(),
            Err(e) => initial_at(t@, i as int) == InitParse::Overflow && e
                == ParserError::InvalidNumberInput,
        },
{
    match parse_operator_as_value(t, i) {
        Some(op) => {
            proof {
                assert(i < spec_vec_len(t));
            }
            match parse_roll_as_value(t, i + 1) {
                Err(e) => Err(e),
                Ok(None) => Ok(None),
                Ok(Some((roll, p))) => Ok(
                    Some((DiceRollWithOp { dice_roll: roll, operation: op }, p)),
                ),
            }
        },
        None => match parse_roll_as_value(t, i) {
            Err(e) => Err(e),
            Ok(None) => Ok(None),
            Ok(Some((roll, p))) => Ok(
                Some((DiceRollWithOp { dice_roll: roll, operation: Operation::Addition }, p)),
            ),
        },
    }
}

/// Recognizes one group: the initial statement and every statement
/// chained to it.  A recognized group holds at least one entry.
fn parse_group(t: &Vec<char>, i: usize) -> (r: Result<
    Option<(Vec<DiceRollWithOp>, usize)>,
    ParserError,
>)
    requires
        i <= t@.len(),
    ensures
        match r {
            Ok(None) => group_at(t@, i as int) == GroupParse::NoMatch,
            Ok(Some((rolls, p))) => group_at(t@, i as int) == GroupParse::Parsed(rolls@, p as int)
                && i < p <= t@.len() && rolls@.len() >= 1,
            Err(e) => group_at(t@, i as int) == GroupParse::Overflow && e
                == ParserError::InvalidNumberInput,
        },
{
    let (first, p) = match parse_initial_statement(t, i) {
        Err(e) => {
            return Err(e);
        },
        Ok(None) => {
            return Ok(None);
        },
        Ok(Some((first, p))) => (first, p),
    };
    match parse_statements(t, p) {
        Err(e) => Err(e),
        Ok((mut tail, rest)) => {
            let ghost tailv = tail@;
            let mut rolls: Vec<DiceRollWithOp> = Vec::new();
            rolls.push(first);
            rolls.append(&mut tail);
            proof {
                assert(rolls@ =~= seq![first] + tailv);
            }
            Ok(Some((rolls, rest)))
        },
    }
}

/// The views of a sequence of groups, group by group.
pub open spec fn views_of_groups(gs: Seq<Vec<DiceRollWithOp>>) -> Seq<Seq<DiceRollWithOp>> {
    gs.map_values(|g: Vec<DiceRollWithOp>| g@)
}

/// Recognizes one group, optionally followed by a comma and further
/// groups.  When the text after a comma is not itself a parsable run
/// of groups, the comma is left unconsumed for the caller's
/// full-consumption check to reject.
fn parse_groups(t: &Vec<char>, i: usize) -> (r: Result<
    Option<(Vec<Vec<DiceRollWithOp>>, usize)>,
    ParserError,
>)
    requires
        i <= t@.len(),
    ensures
        match r {
            Ok(None) => groups_at(t@, i as int) == GroupsParse::NoMatch,
            Ok(Some((gs, p))) => groups_at(t@, i as int) == GroupsParse::Parsed(
                views_of_groups(gs@),
                p as int,
            ) && i < p <= t@.len(),
            Err(e) => groups_at(t@, i as int) == GroupsParse::Overflow && e
                == ParserError::InvalidNumberInput,
        },
    decreases t@.len() - i,
{
    let (g, p) = match parse_group(t, i) {
        Err(e) => {
            return Err(e);
        },
        Ok(None) => {
            return Ok(None);
        },
        Ok(Some((g, p))) => (g, p),
    };
    if p < t.len() && t[p] == ',' {
        match parse_groups(t, p + 1) {
            Err(e) => {
                return Err(e);
            },
            Ok(None) => {
                let mut gs: Vec<Vec<DiceRollWithOp>> = Vec::new();
                let ghost gv = g@;
                gs.push(g);
                proof {
                    assert(views_of_groups(gs@) =~= seq![gv]);
                }
                Ok(Some((gs, p)))
            },
            Ok(Some((mut rest, rest_end))) => {
                let mut gs: Vec<Vec<DiceRollWithOp>> = Vec::new();
                let ghost gv = g@;
                let ghost restv = rest@;
                gs.push(g);
                gs.append(&mut rest);
                proof {
                    assert(gs@ =~= seq![gs@[0]] + restv);
                    assert(views_of_groups(gs@) =~= seq![gv] + views_of_groups(restv));
                }
                Ok(Some((gs, rest_end)))
            },
        }
    } else {
        let mut gs: Vec<Vec<DiceRollWithOp>> = Vec::new();
        let ghost gv = g@;
        gs.push(g);
        proof {
            assert(views_of_groups(gs@) =~= seq![gv]);
        }
        Ok(Some((gs, p)))
    }
}

/// Collects the input's characters unchanged.
fn str_chars(s: &str) -> (t: Vec<char>)
    ensures
        t@ == s@,
{
    let mut t: Vec<char> = Vec::new();
    let mut it = s.chars();
    let ghost mut seen: Seq<char> = Seq::empty();
    proof {
        assert(s@ =~= seen + it.remaining());
    }
    loop
        invariant
            s@ == seen + it.remaining(),
            t@ == seen,
            it.decrease() is Some,
        ensures
            s@ == seen + it.remaining(),
            t@ == seen,
            it.remaining().len() == 0,
        decreases it.decrease()->0,
    {
        let ghost prev = it.remaining();
        match it.next() {
            None => {
                break ;
            },
            Some(c) => {
                proof {
                    assert(seen.push(c) + it.remaining() =~= seen + prev);
                    seen = seen.push(c);
                }
                t.push(c);
            },
        }
    }
    proof {
        assert(t@ =~= s@);
    }
    t
}

/// Reads a whole digit string as a base-ten number of at most `max`,
/// reporting `None` when the text is not a non-empty digit run or its
/// value is too large.
fn parse_checked_number(v: &Vec<char>, max: u64) -> (r: Option<u64>)
    requires
        max <= u32::MAX as u64,
    ensures
        match r {
            Some(x) => grammar::digit_string(v@) && x as int == digits_val(v@) && x <= max,
            None => !(grammar::digit_string(v@) && digits_val(v@) <= max),
        },
{
    if v.len() == 0 {
        return None;
    }
    let mut k: usize = 0;
    while k < v.len()
        invariant
            0 <= k <= v@.len(),
            forall|j: int| 0 <= j < k ==> spec_is_digit(#[trigger] v@[j]),
        decreases v@.len() - k,
    {
        if !is_digit_char(v[k]) {
            return None;
        }
        k = k + 1;
    }
    proof {
        assert(v@.subrange(0, v@.len() as int) =~= v@);
    }
    parse_magnitude(v, 0, v.len(), max)
}

/// Whether the digit runs handed over by the dice-term recognizer all
/// fit their integer widths: the count and sides fit an unsigned
/// 32-bit value, and the modifier magnitude (checked only when both
/// its operator and its digits are present, as the grammar hands them
/// over together) fits a signed 32-bit value.
pub open spec fn items_are_valid(
    count: Option<Seq<char>>,
    sides: Seq<char>,
    modifier_operation: Option<Operation>,
    modifier_value: Option<Seq<char>>,
) -> bool {
    &&& match count {
        None => true,
        Some(cd) => grammar::digit_string(cd) && digits_val(cd) <= u32::MAX,
    }
    &&& grammar::digit_string(sides)
    &&& digits_val(sides) <= u32::MAX
    &&& match (modifier_operation, modifier_value) {
        (Some(op), Some(md)) => grammar::digit_string(md) && digits_val(md) <= i32::MAX,
        _ => true,
    }
}

/// The roll that valid parsed items denote: an omitted count defaults
/// to one die, and the modifier operator's sign folds into the stored
/// modifier.
pub open spec fn roll_from_items(
    count: Option<Seq<char>>,
    sides: Seq<char>,
    modifier_operation: Option<Operation>,
    modifier_value: Option<Seq<char>>,
    roll_type: RollType,
) -> DiceRoll {
    DiceRoll {
        number_of_dice_to_roll: (match count {
            None => 1,
            Some(cd) => digits_val(cd),
        }) as u32,
        dice_sides: digits_val(sides) as u32,
        modifier: match (modifier_operation, modifier_value) {
            (Some(op), Some(md)) => Some(signed_modifier(op, digits_val(md)) as i32),
            _ => None,
        },
        roll_type,
    }
}

/// Builds one `DiceRoll` from the pieces a dice term was recognized
/// as: the optional count digits, the sides digits, the optional
/// modifier operator with its digits, and the roll type.  A digit run
/// that is not a number of its target width is reported as
/// `InvalidNumberInput` instead of being clamped.
pub fn dice_roll_from_parsed_items(
    number_of_dice: Option<&str>,
    dice_sides: &str,
    modifier_operation: Option<Operation>,
    modifier_value: Option<&str>,
    roll_type: RollType,
) -> (r: Result<DiceRoll, ParserError>)
    ensures
        ({
            let count = match number_of_dice {
                None => None,
                Some(nd) => Some(nd@),
            };
            let mval = match modifier_value {
                None => None,
                Some(mv) => Some(mv@),
            };
            match r {
                Ok(roll) => items_are_valid(count, dice_sides@, modifier_operation, mval) && roll
                    == roll_from_items(count, dice_sides@, modifier_operation, mval, roll_type),
                Err(e) => e == ParserError::InvalidNumberInput && !items_are_valid(
                    count,
                    dice_sides@,
                    modifier_operation,
                    mval,
                ),
            }
        }),
{
    let count_num: u32 = match number_of_dice {
        None => 1,
        Some(nd) => {
            let ndv = str_chars(nd);
            match parse_checked_number(&ndv, 0xFFFF_FFFFu64) {
                None => {
                    return Err(ParserError::InvalidNumberInput);
                },
                Some(x) => x as u32,
            }
        },
    };
    let sides_v = str_chars(dice_sides);
    let sides_num: u32 = match parse_checked_number(&sides_v, 0xFFFF_FFFFu64) {
        None => {
            return Err(ParserError::InvalidNumberInput);
        },
        Some(x) => x as u32,
    };
    let modifier: Option<i32> = match (modifier_operation, modifier_value) {
        (Some(op), Some(mv)) => {
            let mvv = str_chars(mv);
            match parse_checked_number(&mvv, 0x7FFF_FFFFu64) {
                None => {
                    return Err(ParserError::InvalidNumberInput);
                },
                Some(magnitude) => Some(
                    match op {
                        Operation::Addition => magnitude as i32,
                        Operation::Subtraction => -(magnitude as i32),
                    },
                ),
            }
        },
        _ => None,
    };
    Ok(
        DiceRoll {
            number_of_dice_to_roll: count_num,
            dice_sides: sides_num,
            modifier,
            roll_type,
        },
    )
}

/// The diagnostic text reported when the grammar matches nothing at
/// the start of the (space-stripped) input.
pub open spec fn mismatch_message(t: Seq<char>) -> Seq<char> {
    "could not parse dice notation at: "@ + t
}

/// The diagnostic text reported when the grammar matches a prefix but
/// leaves text behind.
pub open spec fn trailing_message(rest: Seq<char>) -> Seq<char> {
    "Expected remaining input to be empty, found: "@ + rest
}

/// Relies on `String::push`: it appends exactly the given character
/// at the end of the string.
#[verifier::external_body]
fn push_char(s: &mut String, c: char)
    ensures
        final(s)@ == old(s)@.push(c),
{
    s.push(c);
}

/// Copies the characters `t[from..to)` into a fresh string.
fn chars_to_string(t: &Vec<char>, from: usize, to: usize) -> (r: String)
    requires
        from <= to <= t@.len(),
    ensures
        r@ == t@.subrange(from as int, to as int),
{
    let mut r = String::new();
    let mut k: usize = from;
    while k < to
        invariant
            from <= k <= to <= t@.len(),
            r@ == t@.subrange(from as int, k as int),
        decreases to - k,
    {
        push_char(&mut r, t[k]);
        k = k + 1;
        proof {
            assert(t@.subrange(from as int, k as int) =~= t@.subrange(
                from as int,
                k - 1,
            ).push(t@[k - 1]));
        }
    }
    r
}

/// Collects the input's characters, leaving out every space, so that
/// spacing anywhere in the notation is insignificant.
fn strip_spaces_exec(s: &str) -> (t: Vec<char>)
    ensures
        t@ == grammar::strip_spaces(s@),
{
    let mut t: Vec<char> = Vec::new();
    let mut it = s.chars();
    let ghost mut seen: Seq<char> = Seq::empty();
    proof {
        assert(s@ =~= seen + it.remaining());
    }
    loop
        invariant
            s@ == seen + it.remaining(),
            t@ == grammar::strip_spaces(seen),
            it.decrease() is Some,
        ensures
            s@ == seen + it.remaining(),
            t@ == grammar::strip_spaces(seen),
            it.remaining().len() == 0,
        decreases it.decrease()->0,
    {
        let ghost prev = it.remaining();
        match it.next() {
            None => {
                break ;
            },
            Some(c) => {
                proof {
                    grammar::lemma_strip_spaces_push(seen, c);
                    assert(seen.push(c) + it.remaining() =~= seen + prev);
                    seen = seen.push(c);
                }
                if c != ' ' {
                    t.push(c);
                }
            },
        }
    }
    proof {
        assert(seen =~= s@);
    }
    t
}

/// Whether `c` is trimmed away from the end of leftover text before
/// the full-consumption check (ASCII whitespace).
fn is_trim_whitespace_char(c: char) -> (r: bool)
    ensures
        r == grammar::spec_is_trim_whitespace(c),
{
    c == ' ' || c == '\t' || c == '\n' || c == '\r' || c == '\u{b}' || c == '\u{c}'
}

/// Whether everything from `i` on is whitespace, so the leftover text
/// trims to nothing.
fn remaining_trims_to_empty(t: &Vec<char>, i: usize) -> (r: bool)
    requires
        i <= t@.len(),
    ensures
        r == grammar::all_trailing_whitespace(t@, i as int),
{
    let mut k: usize = i;
    while k < t.len()
        invariant
            i <= k <= t@.len(),
            forall|j: int| i <= j < k ==> grammar::spec_is_trim_whitespace(#[trigger] t@[j]),
        decreases t@.len() - k,
    {
        if !is_trim_whitespace_char(t[k]) {
            return false;
        }
        k = k + 1;
    }
    true
}

/// Parses one line of dice notation into its groups.
///
/// Space characters are stripped first, so spacing anywhere, even
/// inside a token, is insignificant.  The groups recognizer must then
/// consume the whole text: leftover text (after trimming whitespace)
/// is rejected as a `ParseError`, a grammar mismatch likewise, and a
/// number too large for its integer width as `InvalidNumberInput`.
/// The result preserves left-to-right source order, group by group and
/// term by term, exactly as [`grammar::line_parse`] states.
pub fn parse_line(i: &str) -> (r: Result<Vec<Vec<DiceRollWithOp>>, ParserError>)
    ensures
        match r {
            Ok(groups) => grammar::line_parse(i@) == grammar::LineParse::Parsed(
                views_of_groups(groups@),
            ),
            Err(e) => match e {
                ParserError::ParseError(m) => (grammar::line_parse(i@) matches
                    grammar::LineParse::Mismatch(t) && m@ == mismatch_message(t)) || (
                grammar::line_parse(i@) matches grammar::LineParse::Trailing(rest) && m@
                    == trailing_message(rest)),
                ParserError::InvalidNumberInput => grammar::line_parse(i@)
                    == grammar::LineParse::BadNumber,
                ParserError::Unknown => false,
            },
        },
{
    let whitespaceless = strip_spaces_exec(i);
    match parse_groups(&whitespaceless, 0) {
        Err(e) => Err(e),
        Ok(None) => {
            let ctx = chars_to_string(&whitespaceless, 0, whitespaceless.len());
            proof {
                assert(whitespaceless@.subrange(0, whitespaceless@.len() as int)
                    =~= whitespaceless@);
            }
            Err(
                ParserError::ParseError(
                    String::from_str("could not parse dice notation at: ").concat(ctx.as_str()),
                ),
            )
        },
        Ok(Some((dice_rolls, p))) => {
            if remaining_trims_to_empty(&whitespaceless, p) {
                Ok(dice_rolls)
            } else {
                let rest = chars_to_string(&whitespaceless, p, whitespaceless.len());
                Err(
                    ParserError::ParseError(
                        String::from_str("Expected remaining input to be empty, found: ").concat(
                            rest.as_str(),
                        ),
                    ),
                )
            }
        },
    }
}

} // verus!
