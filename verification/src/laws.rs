//! The general laws of the parser, each proved from the grammar's
//! definition: how spacing, a single dice term, an omitted count, a
//! signed modifier and a roll-type suffix behave for every input of
//! their shape.

use vstd::prelude::*;

use crate::dice_roll::{DiceRoll, Operation, RollType};
use crate::dice_roll_with_op::DiceRollWithOp;
use crate::grammar::{
    at_end_marker, blank_run_end, chain_at, count_val, dice_parts_at, dice_term_follows,
    digit_run_end, digit_string, digits_val, group_at, groups_at, initial_at,
    lemma_digit_run_end_is, lemma_strip_spaces_no_spaces, line_parse, operator_at, roll_at,
    roll_type_at, signed_modifier, spec_is_digit, strip_spaces, ChainParse, DiceParts, GroupParse,
    GroupsParse, InitParse, LineParse, RollParse,
};

verus! {

/// The character that denotes an operation in the notation.
pub open spec fn operator_char(op: Operation) -> char {
    match op {
        Operation::Addition => '+',
        Operation::Subtraction => '-',
    }
}

/// Spacing is insignificant: two inputs that agree once their space
/// characters are stripped parse to exactly the same outcome.
pub proof fn lemma_spacing_is_insignificant(s1: Seq<char>, s2: Seq<char>)
    requires
        strip_spaces(s1) == strip_spaces(s2),
    ensures
        line_parse(s1) == line_parse(s2),
{
}

/// Input that strips to nothing (empty input, or spaces only) is
/// rejected as a grammar mismatch.
pub proof fn lemma_empty_input_is_rejected(s: Seq<char>)
    requires
        strip_spaces(s).len() == 0,
    ensures
        line_parse(s) == LineParse::Mismatch(strip_spaces(s)),
{
    let t = strip_spaces(s);
    assert(digit_run_end(t, 0) == 0);
    assert(roll_at(t, 0) == RollParse::NoMatch);
    assert(groups_at(t, 0) == GroupsParse::NoMatch);
}

/// How one whole term-shaped text runs through the recognizers: the
/// count digits, the separator, the sides digits, then `rest`, whose
/// first character (if any) is not a digit.
proof fn lemma_dice_parts_of_term(cd: Seq<char>, sd: Seq<char>, rest: Seq<char>)
    requires
        forall|k: int| 0 <= k < cd.len() ==> spec_is_digit(#[trigger] cd[k]),
        digit_string(sd),
        rest.len() > 0 ==> !spec_is_digit(rest[0]),
    ensures
        ({
            let t = cd + seq!['d'] + sd + rest;
            &&& t.len() == cd.len() + 1 + sd.len() + rest.len()
            &&& dice_parts_at(t, 0) == Some(
                DiceParts {
                    count_end: cd.len() as int,
                    sides_end: cd.len() + 1 + sd.len() as int,
                },
            )
            &&& t.subrange(0, cd.len() as int) == cd
            &&& t.subrange(cd.len() as int + 1, cd.len() + 1 + sd.len() as int) == sd
            &&& count_val(t, 0, cd.len() as int) == (if cd.len() == 0 {
                1
            } else {
                digits_val(cd)
            })
            &&& operator_at(t, 0) is None
        }),
{
    let t = cd + seq!['d'] + sd + rest;
    let j = cd.len() as int;
    let e = cd.len() + 1 + sd.len() as int;
    assert(t[j] == 'd');
    assert(!spec_is_digit('d'));
    assert(forall|k: int| 0 <= k < j ==> t[k] == cd[k]);
    assert(forall|k: int| j + 1 <= k < e ==> t[k] == sd[k - (j + 1)]);
    lemma_digit_run_end_is(t, 0, j);
    if e < t.len() {
        assert(t[e] == rest[0]);
    }
    lemma_digit_run_end_is(t, j + 1, e);
    assert(t.subrange(0, j) =~= cd);
    assert(t.subrange(j + 1, e) =~= sd);
    if cd.len() > 0 {
        assert(!spec_is_digit('+') && !spec_is_digit('-'));
    }
}

/// The character sequences of the notation never contain a space, so
/// a term built from digit runs, the separator, operators, commas and
/// roll-type letters strips to itself.
proof fn lemma_term_text_strips_to_itself(t: Seq<char>)
    requires
        forall|k: int| 0 <= k < t.len() ==> (#[trigger] t[k] == 'd' || t[k] == 'a' || t[k] == 'A'
            || t[k] == 'D' || t[k] == '+' || t[k] == '-' || t[k] == ',' || spec_is_digit(t[k])),
    ensures
        strip_spaces(t) == t,
{
    assert(forall|k: int| 0 <= k < t.len() ==> (#[trigger] t[k]) != ' ') by {
        assert(!spec_is_digit(' '));
    }
    lemma_strip_spaces_no_spaces(t);
}

/// How a `[count]d<sides>` region anywhere in the input runs through
/// the `[count] "d" sides` recognizer: the count digits fill
/// `[i, i + cd.len())`, the separator follows, the sides digits run to
/// `e`, and the character at `e` (if any) is not a digit.
proof fn lemma_term_region(t: Seq<char>, i: int, cd: Seq<char>, sd: Seq<char>)
    requires
        0 <= i,
        i + cd.len() + 1 + sd.len() <= t.len(),
        t.subrange(i, i + cd.len() as int) == cd,
        t[i + cd.len()] == 'd',
        t.subrange(i + cd.len() as int + 1, i + cd.len() + 1 + sd.len() as int) == sd,
        forall|k: int| 0 <= k < cd.len() ==> spec_is_digit(#[trigger] cd[k]),
        digit_string(sd),
        i + cd.len() + 1 + sd.len() == t.len() || !spec_is_digit(t[i + cd.len() + 1 + sd.len()]),
    ensures
        ({
            let j = i + cd.len() as int;
            let e = i + cd.len() + 1 + sd.len() as int;
            &&& dice_parts_at(t, i) == Some(DiceParts { count_end: j, sides_end: e })
            &&& count_val(t, i, j) == (if cd.len() == 0 {
                1
            } else {
                digits_val(cd)
            })
            &&& digits_val(t.subrange(j + 1, e)) == digits_val(sd)
        }),
{
    let j = i + cd.len() as int;
    let e = i + cd.len() + 1 + sd.len() as int;
    assert forall|k: int| i <= k < j implies spec_is_digit(#[trigger] t[k]) by {
        assert(t[k] == t.subrange(i, j)[k - i]);
    }
    assert(!spec_is_digit('d'));
    lemma_digit_run_end_is(t, i, j);
    assert forall|k: int| j + 1 <= k < e implies spec_is_digit(#[trigger] t[k]) by {
        assert(t[k] == t.subrange(j + 1, e)[k - (j + 1)]);
    }
    lemma_digit_run_end_is(t, j + 1, e);
}

/// One dice term alone, `[count]d<sides>`, parses to a single group
/// with a single entry: the term with no modifier, a regular roll
/// type, and `Addition` as its operation.  An omitted (empty) count
/// reads as one die, so `d<sides>` is equivalent to `1d<sides>`.
pub proof fn lemma_single_term_parses(cd: Seq<char>, sd: Seq<char>)
    requires
        forall|k: int| 0 <= k < cd.len() ==> spec_is_digit(#[trigger] cd[k]),
        digit_string(sd),
        cd.len() > 0 ==> digits_val(cd) <= u32::MAX,
        digits_val(sd) <= u32::MAX,
    ensures
        line_parse(cd + seq!['d'] + sd) == LineParse::Parsed(
            seq![
                seq![
                    DiceRollWithOp {
                        dice_roll: DiceRoll {
                            number_of_dice_to_roll: (if cd.len() == 0 {
                                1
                            } else {
                                digits_val(cd)
                            }) as u32,
                            dice_sides: digits_val(sd) as u32,
                            modifier: None,
                            roll_type: RollType::Regular,
                        },
                        operation: Operation::Addition,
                    }
                ],
            ],
        ),
{
    let t = cd + seq!['d'] + sd + Seq::<char>::empty();
    lemma_dice_parts_of_term(cd, sd, Seq::empty());
    let p = cd.len() + 1 + sd.len() as int;
    assert(p == t.len());
    let roll = DiceRoll {
        number_of_dice_to_roll: (if cd.len() == 0 {
            1
        } else {
            digits_val(cd)
        }) as u32,
        dice_sides: digits_val(sd) as u32,
        modifier: None,
        roll_type: RollType::Regular,
    };
    assert(roll_type_at(t, p) == (RollType::Regular, p));
    assert(roll_at(t, 0) == RollParse::Parsed(roll, p));
    let pair = DiceRollWithOp { dice_roll: roll, operation: Operation::Addition };
    assert(initial_at(t, 0) == InitParse::Parsed(pair, p));
    assert(blank_run_end(t, p) == p);
    assert(chain_at(t, p) == ChainParse::Parsed(Seq::<DiceRollWithOp>::empty(), p));
    assert(seq![pair] + Seq::<DiceRollWithOp>::empty() =~= seq![pair]);
    assert(group_at(t, 0) == GroupParse::Parsed(seq![pair], p));
    assert(groups_at(t, 0) == GroupsParse::Parsed(seq![seq![pair]], p));
    lemma_term_text_strips_to_itself(t);
    assert(t =~= cd + seq!['d'] + sd);
}

/// A count or sides digit run whose value does not fit an unsigned
/// 32-bit integer is reported as an invalid number, never clamped.
pub proof fn lemma_numeric_overflow_is_rejected(cd: Seq<char>, sd: Seq<char>)
    requires
        forall|k: int| 0 <= k < cd.len() ==> spec_is_digit(#[trigger] cd[k]),
        digit_string(sd),
        (cd.len() > 0 && digits_val(cd) > u32::MAX) || digits_val(sd) > u32::MAX,
    ensures
        line_parse(cd + seq!['d'] + sd) == LineParse::BadNumber,
{
    let t = cd + seq!['d'] + sd + Seq::<char>::empty();
    lemma_dice_parts_of_term(cd, sd, Seq::empty());
    let p = cd.len() + 1 + sd.len() as int;
    assert(p == t.len());
    assert(roll_at(t, 0) == RollParse::Overflow);
    assert(initial_at(t, 0) == InitParse::Overflow);
    assert(group_at(t, 0) == GroupParse::Overflow);
    assert(groups_at(t, 0) == GroupsParse::Overflow);
    lemma_term_text_strips_to_itself(t);
    assert(t =~= cd + seq!['d'] + sd);
}

/// One dice term with a signed modifier, `[count]d<sides>+m` or
/// `[count]d<sides>-m`, parses to a single group with a single entry
/// whose stored modifier carries the operator's sign already applied:
/// `+` stores the magnitude itself and `-` stores it negated.
#[verifier::rlimit(50)]
pub proof fn lemma_single_term_with_modifier_parses(
    cd: Seq<char>,
    sd: Seq<char>,
    op: Operation,
    md: Seq<char>,
)
    requires
        forall|k: int| 0 <= k < cd.len() ==> spec_is_digit(#[trigger] cd[k]),
        digit_string(sd),
        digit_string(md),
        cd.len() > 0 ==> digits_val(cd) <= u32::MAX,
        digits_val(sd) <= u32::MAX,
        digits_val(md) <= i32::MAX,
    ensures
        line_parse(cd + seq!['d'] + sd + seq![operator_char(op)] + md) == LineParse::Parsed(
            seq![
                seq![
                    DiceRollWithOp {
                        dice_roll: DiceRoll {
                            number_of_dice_to_roll: (if cd.len() == 0 {
                                1
                            } else {
                                digits_val(cd)
                            }) as u32,
                            dice_sides: digits_val(sd) as u32,
                            modifier: Some(signed_modifier(op, digits_val(md)) as i32),
                            roll_type: RollType::Regular,
                        },
                        operation: Operation::Addition,
                    }
                ],
            ],
        ),
{
    let rest = seq![operator_char(op)] + md;
    let t = cd + seq!['d'] + sd + rest;
    assert(!spec_is_digit('+') && !spec_is_digit('-'));
    assert(rest[0] == operator_char(op));
    lemma_dice_parts_of_term(cd, sd, rest);
    let p = cd.len() + 1 + sd.len() as int;
    assert(t[p] == operator_char(op));
    assert(operator_at(t, p) == Some(op));
    let e = t.len() as int;
    assert(forall|k: int| p + 1 <= k < e ==> t[k] == md[k - (p + 1)]);
    lemma_digit_run_end_is(t, p + 1, e);
    assert(digit_run_end(t, p + 1) == e && e > p + 1);
    assert(!dice_term_follows(t, e));
    assert(t.subrange(p + 1, e) =~= md);
    assert(roll_type_at(t, e) == (RollType::Regular, e));
    let roll = DiceRoll {
        number_of_dice_to_roll: (if cd.len() == 0 {
            1
        } else {
            digits_val(cd)
        }) as u32,
        dice_sides: digits_val(sd) as u32,
        modifier: Some(signed_modifier(op, digits_val(md)) as i32),
        roll_type: RollType::Regular,
    };
    assert(roll_at(t, 0) == RollParse::Parsed(roll, e));
    let pair = DiceRollWithOp { dice_roll: roll, operation: Operation::Addition };
    assert(initial_at(t, 0) == InitParse::Parsed(pair, e));
    assert(blank_run_end(t, e) == e);
    assert(chain_at(t, e) == ChainParse::Parsed(Seq::<DiceRollWithOp>::empty(), e));
    assert(seq![pair] + Seq::<DiceRollWithOp>::empty() =~= seq![pair]);
    assert(group_at(t, 0) == GroupParse::Parsed(seq![pair], e));
    assert(groups_at(t, 0) == GroupsParse::Parsed(seq![seq![pair]], e));
    lemma_term_text_strips_to_itself(t);
    assert(t =~= cd + seq!['d'] + sd + seq![operator_char(op)] + md);
}

/// One dice term with a roll-type suffix, `[count]d<sides>` followed
/// by a case-insensitive `a` or `d` at the very end, parses to a
/// single group with a single entry rolled with advantage or
/// disadvantage respectively.
pub proof fn lemma_single_term_with_roll_type_parses(cd: Seq<char>, sd: Seq<char>, sfx: char)
    requires
        forall|k: int| 0 <= k < cd.len() ==> spec_is_digit(#[trigger] cd[k]),
        digit_string(sd),
        cd.len() > 0 ==> digits_val(cd) <= u32::MAX,
        digits_val(sd) <= u32::MAX,
        sfx == 'a' || sfx == 'A' || sfx == 'd' || sfx == 'D',
    ensures
        line_parse(cd + seq!['d'] + sd + seq![sfx]) == LineParse::Parsed(
            seq![
                seq![
                    DiceRollWithOp {
                        dice_roll: DiceRoll {
                            number_of_dice_to_roll: (if cd.len() == 0 {
                                1
                            } else {
                                digits_val(cd)
                            }) as u32,
                            dice_sides: digits_val(sd) as u32,
                            modifier: None,
                            roll_type: (if sfx == 'a' || sfx == 'A' {
                                RollType::WithAdvantage
                            } else {
                                RollType::WithDisadvantage
                            }),
                        },
                        operation: Operation::Addition,
                    }
                ],
            ],
        ),
{
    let rest = seq![sfx];
    let t = cd + seq!['d'] + sd + rest;
    assert(!spec_is_digit('a') && !spec_is_digit('A') && !spec_is_digit('d') && !spec_is_digit(
        'D',
    ));
    lemma_dice_parts_of_term(cd, sd, rest);
    let p = cd.len() + 1 + sd.len() as int;
    assert(t[p] == sfx);
    assert(operator_at(t, p) is None);
    let e = t.len() as int;
    assert(e == p + 1);
    let rt = if sfx == 'a' || sfx == 'A' {
        RollType::WithAdvantage
    } else {
        RollType::WithDisadvantage
    };
    assert(at_end_marker(t, p + 1));
    assert(roll_type_at(t, p) == (rt, e));
    let roll = DiceRoll {
        number_of_dice_to_roll: (if cd.len() == 0 {
            1
        } else {
            digits_val(cd)
        }) as u32,
        dice_sides: digits_val(sd) as u32,
        modifier: None,
        roll_type: rt,
    };
    assert(roll_at(t, 0) == RollParse::Parsed(roll, e));
    let pair = DiceRollWithOp { dice_roll: roll, operation: Operation::Addition };
    assert(initial_at(t, 0) == InitParse::Parsed(pair, e));
    assert(blank_run_end(t, e) == e);
    assert(chain_at(t, e) == ChainParse::Parsed(Seq::<DiceRollWithOp>::empty(), e));
    assert(seq![pair] + Seq::<DiceRollWithOp>::empty() =~= seq![pair]);
    assert(group_at(t, 0) == GroupParse::Parsed(seq![pair], e));
    assert(groups_at(t, 0) == GroupsParse::Parsed(seq![seq![pair]], e));
    lemma_term_text_strips_to_itself(t);
}

/// A trailing `operator [count]d<sides>` that fills the rest of the
/// input chains exactly one further entry onto a group.
#[verifier::rlimit(50)]
proof fn lemma_tail_term_chains(t: Seq<char>, l1: int, op: Operation, cd2: Seq<char>, sd2: Seq<char>)
    requires
        0 <= l1,
        t.len() == l1 + 1 + cd2.len() + 1 + sd2.len(),
        t[l1] == operator_char(op),
        t.subrange(l1 + 1, l1 + 1 + cd2.len() as int) == cd2,
        t[l1 + 1 + cd2.len()] == 'd',
        t.subrange(l1 + 1 + cd2.len() as int + 1, t.len() as int) == sd2,
        forall|k: int| 0 <= k < cd2.len() ==> spec_is_digit(#[trigger] cd2[k]),
        digit_string(sd2),
        cd2.len() > 0 ==> digits_val(cd2) <= u32::MAX,
        digits_val(sd2) <= u32::MAX,
    ensures
        operator_at(t, l1) == Some(op),
        digit_run_end(t, l1 + 1) == l1 + 1 + cd2.len(),
        cd2.len() > 0 ==> dice_term_follows(t, l1 + 1 + cd2.len()),
        chain_at(t, l1) == ChainParse::Parsed(
            seq![
                DiceRollWithOp {
                    dice_roll: DiceRoll {
                        number_of_dice_to_roll: (if cd2.len() == 0 {
                            1
                        } else {
                            digits_val(cd2)
                        }) as u32,
                        dice_sides: digits_val(sd2) as u32,
                        modifier: None,
                        roll_type: RollType::Regular,
                    },
                    operation: op,
                }
            ],
            t.len() as int,
        ),
{
    let i2 = l1 + 1;
    let n = t.len() as int;
    assert(!spec_is_digit('+') && !spec_is_digit('-') && !spec_is_digit('d'));
    lemma_term_region(t, i2, cd2, sd2);
    assert(operator_at(t, n) is None);
    assert(roll_type_at(t, n) == (RollType::Regular, n));
    let roll2 = DiceRoll {
        number_of_dice_to_roll: (if cd2.len() == 0 {
            1
        } else {
            digits_val(cd2)
        }) as u32,
        dice_sides: digits_val(sd2) as u32,
        modifier: None,
        roll_type: RollType::Regular,
    };
    assert(roll_at(t, i2) == RollParse::Parsed(roll2, n));
    let pair2 = DiceRollWithOp { dice_roll: roll2, operation: op };
    assert(blank_run_end(t, n) == n);
    assert(chain_at(t, n) == ChainParse::Parsed(Seq::<DiceRollWithOp>::empty(), n));
    assert(seq![pair2] + Seq::<DiceRollWithOp>::empty() =~= seq![pair2]);
    assert(chain_at(t, l1) == ChainParse::Parsed(seq![pair2], n));
}

/// Where each piece of a two-term text `<term1><sep><term2>` sits:
/// the digit runs, the separators, and the separator character
/// between the terms.
#[verifier::rlimit(100)]
proof fn lemma_two_term_layout(cd1: Seq<char>, sd1: Seq<char>, sep: char, cd2: Seq<char>, sd2: Seq<char>)
    requires
        forall|k: int| 0 <= k < cd1.len() ==> spec_is_digit(#[trigger] cd1[k]),
        digit_string(sd1),
        forall|k: int| 0 <= k < cd2.len() ==> spec_is_digit(#[trigger] cd2[k]),
        digit_string(sd2),
        sep == ',' || sep == '+' || sep == '-',
    ensures
        ({
            let t = cd1 + seq!['d'] + sd1 + seq![sep] + cd2 + seq!['d'] + sd2;
            let l1 = cd1.len() + 1 + sd1.len() as int;
            let i2 = l1 + 1;
            let n = t.len() as int;
            &&& n == i2 + cd2.len() + 1 + sd2.len()
            &&& t[l1] == sep
            &&& t.subrange(0, cd1.len() as int) == cd1
            &&& t[cd1.len() as int] == 'd'
            &&& t.subrange(cd1.len() as int + 1, l1) == sd1
            &&& t.subrange(i2, i2 + cd2.len() as int) == cd2
            &&& t[i2 + cd2.len()] == 'd'
            &&& t.subrange(i2 + cd2.len() as int + 1, n) == sd2
            &&& strip_spaces(t) == t
        }),
{
    let t = cd1 + seq!['d'] + sd1 + seq![sep] + cd2 + seq!['d'] + sd2;
    let l1 = cd1.len() + 1 + sd1.len() as int;
    let i2 = l1 + 1;
    let n = t.len() as int;
    assert(t.subrange(0, cd1.len() as int) =~= cd1);
    assert(t.subrange(cd1.len() as int + 1, l1) =~= sd1);
    assert(t.subrange(i2, i2 + cd2.len() as int) =~= cd2);
    assert(t.subrange(i2 + cd2.len() as int + 1, n) =~= sd2);
    lemma_term_text_strips_to_itself(t);
}

/// A `[count]d<sides>` at the start of the input, followed by an
/// operator whose digits are empty or lead into another dice term, is
/// read as a plain first term: the would-be modifier is rejected and
/// the operator is left for the chain.
#[verifier::rlimit(50)]
proof fn lemma_head_term_keeps_operator(t: Seq<char>, cd1: Seq<char>, sd1: Seq<char>, op: Operation)
    requires
        forall|k: int| 0 <= k < cd1.len() ==> spec_is_digit(#[trigger] cd1[k]),
        digit_string(sd1),
        cd1.len() > 0 ==> digits_val(cd1) <= u32::MAX,
        digits_val(sd1) <= u32::MAX,
        cd1.len() + 1 + sd1.len() < t.len(),
        t.subrange(0, cd1.len() as int) == cd1,
        t[cd1.len() as int] == 'd',
        t.subrange(cd1.len() as int + 1, cd1.len() + 1 + sd1.len() as int) == sd1,
        t[cd1.len() + 1 + sd1.len() as int] == operator_char(op),
        digit_run_end(t, cd1.len() + 1 + sd1.len() as int + 1) == cd1.len() + 1 + sd1.len() + 1
            || dice_term_follows(t, digit_run_end(t, cd1.len() + 1 + sd1.len() as int + 1)),
    ensures
        ({
            let l1 = cd1.len() + 1 + sd1.len() as int;
            initial_at(t, 0) == InitParse::Parsed(
                (DiceRollWithOp {
                    dice_roll: DiceRoll {
                        number_of_dice_to_roll: (if cd1.len() == 0 {
                            1
                        } else {
                            digits_val(cd1)
                        }) as u32,
                        dice_sides: digits_val(sd1) as u32,
                        modifier: None,
                        roll_type: RollType::Regular,
                    },
                    operation: Operation::Addition,
                }),
                l1,
            )
        }),
{
    let l1 = cd1.len() + 1 + sd1.len() as int;
    assert(!spec_is_digit('+') && !spec_is_digit('-') && !spec_is_digit('d'));
    lemma_term_region(t, 0, cd1, sd1);
    assert(operator_at(t, l1) == Some(op));
    assert(roll_type_at(t, l1) == (RollType::Regular, l1));
    let roll1 = DiceRoll {
        number_of_dice_to_roll: (if cd1.len() == 0 {
            1
        } else {
            digits_val(cd1)
        }) as u32,
        dice_sides: digits_val(sd1) as u32,
        modifier: None,
        roll_type: RollType::Regular,
    };
    assert(roll_at(t, 0) == RollParse::Parsed(roll1, l1));
    assert(operator_at(t, 0) is None);
}

/// Two dice terms joined by an operator form one group whose entries
/// accumulate in source order: the first term carries `Addition`, the
/// second carries the joining operator, and neither reads the digits
/// of the other as its modifier.
#[verifier::rlimit(100)]
pub proof fn lemma_operator_chains_terms(
    cd1: Seq<char>,
    sd1: Seq<char>,
    op: Operation,
    cd2: Seq<char>,
    sd2: Seq<char>,
)
    requires
        forall|k: int| 0 <= k < cd1.len() ==> spec_is_digit(#[trigger] cd1[k]),
        digit_string(sd1),
        forall|k: int| 0 <= k < cd2.len() ==> spec_is_digit(#[trigger] cd2[k]),
        digit_string(sd2),
        cd1.len() > 0 ==> digits_val(cd1) <= u32::MAX,
        digits_val(sd1) <= u32::MAX,
        cd2.len() > 0 ==> digits_val(cd2) <= u32::MAX,
        digits_val(sd2) <= u32::MAX,
    ensures
        line_parse(cd1 + seq!['d'] + sd1 + seq![operator_char(op)] + cd2 + seq!['d'] + sd2)
            == LineParse::Parsed(
            seq![
                seq![
                    DiceRollWithOp {
                        dice_roll: DiceRoll {
                            number_of_dice_to_roll: (if cd1.len() == 0 {
                                1
                            } else {
                                digits_val(cd1)
                            }) as u32,
                            dice_sides: digits_val(sd1) as u32,
                            modifier: None,
                            roll_type: RollType::Regular,
                        },
                        operation: Operation::Addition,
                    },
                    DiceRollWithOp {
                        dice_roll: DiceRoll {
                            number_of_dice_to_roll: (if cd2.len() == 0 {
                                1
                            } else {
                                digits_val(cd2)
                            }) as u32,
                            dice_sides: digits_val(sd2) as u32,
                            modifier: None,
                            roll_type: RollType::Regular,
                        },
                        operation: op,
                    }
                ],
            ],
        ),
{
    let t = cd1 + seq!['d'] + sd1 + seq![operator_char(op)] + cd2 + seq!['d'] + sd2;
    let l1 = cd1.len() + 1 + sd1.len() as int;
    let i2 = l1 + 1;
    let n = t.len() as int;
    lemma_two_term_layout(cd1, sd1, operator_char(op), cd2, sd2);
    lemma_tail_term_chains(t, l1, op, cd2, sd2);
    // The first term: the operator after it never reads the second
    // term's digits as a modifier, so the plain form stands.
    lemma_head_term_keeps_operator(t, cd1, sd1, op);
    let roll1 = DiceRoll {
        number_of_dice_to_roll: (if cd1.len() == 0 {
            1
        } else {
            digits_val(cd1)
        }) as u32,
        dice_sides: digits_val(sd1) as u32,
        modifier: None,
        roll_type: RollType::Regular,
    };
    let pair1 = DiceRollWithOp { dice_roll: roll1, operation: Operation::Addition };
    assert(initial_at(t, 0) == InitParse::Parsed(pair1, l1));
    // The rest of the group comes from the chained tail term.
    let roll2 = DiceRoll {
        number_of_dice_to_roll: (if cd2.len() == 0 {
            1
        } else {
            digits_val(cd2)
        }) as u32,
        dice_sides: digits_val(sd2) as u32,
        modifier: None,
        roll_type: RollType::Regular,
    };
    let pair2 = DiceRollWithOp { dice_roll: roll2, operation: op };
    assert(chain_at(t, l1) == ChainParse::Parsed(seq![pair2], n));
    assert(seq![pair1] + seq![pair2] =~= seq![pair1, pair2]);
    assert(group_at(t, 0) == GroupParse::Parsed(seq![pair1, pair2], n));
    assert(groups_at(t, 0) == GroupsParse::Parsed(seq![seq![pair1, pair2]], n));
}

/// Two dice terms separated by a comma form two groups, one entry
/// each, parsed independently and kept in source order.
#[verifier::rlimit(100)]
pub proof fn lemma_comma_splits_groups(
    cd1: Seq<char>,
    sd1: Seq<char>,
    cd2: Seq<char>,
    sd2: Seq<char>,
)
    requires
        forall|k: int| 0 <= k < cd1.len() ==> spec_is_digit(#[trigger] cd1[k]),
        digit_string(sd1),
        forall|k: int| 0 <= k < cd2.len() ==> spec_is_digit(#[trigger] cd2[k]),
        digit_string(sd2),
        cd1.len() > 0 ==> digits_val(cd1) <= u32::MAX,
        digits_val(sd1) <= u32::MAX,
        cd2.len() > 0 ==> digits_val(cd2) <= u32::MAX,
        digits_val(sd2) <= u32::MAX,
    ensures
        line_parse(cd1 + seq!['d'] + sd1 + seq![','] + cd2 + seq!['d'] + sd2) == LineParse::Parsed(
            seq![
                seq![
                    DiceRollWithOp {
                        dice_roll: DiceRoll {
                            number_of_dice_to_roll: (if cd1.len() == 0 {
                                1
                            } else {
                                digits_val(cd1)
                            }) as u32,
                            dice_sides: digits_val(sd1) as u32,
                            modifier: None,
                            roll_type: RollType::Regular,
                        },
                        operation: Operation::Addition,
                    }
                ],
                seq![
                    DiceRollWithOp {
                        dice_roll: DiceRoll {
                            number_of_dice_to_roll: (if cd2.len() == 0 {
                                1
                            } else {
                                digits_val(cd2)
                            }) as u32,
                            dice_sides: digits_val(sd2) as u32,
                            modifier: None,
                            roll_type: RollType::Regular,
                        },
                        operation: Operation::Addition,
                    }
                ],
            ],
        ),
{
    let t = cd1 + seq!['d'] + sd1 + seq![','] + cd2 + seq!['d'] + sd2;
    let l1 = cd1.len() + 1 + sd1.len() as int;
    let i2 = l1 + 1;
    let n = t.len() as int;
    lemma_two_term_layout(cd1, sd1, ',', cd2, sd2);
    assert(!spec_is_digit(',') && !spec_is_digit('d'));
    lemma_term_region(t, 0, cd1, sd1);
    lemma_term_region(t, i2, cd2, sd2);
    // The first group ends right before the comma.
    assert(operator_at(t, l1) is None);
    assert(roll_type_at(t, l1) == (RollType::Regular, l1));
    let roll1 = DiceRoll {
        number_of_dice_to_roll: (if cd1.len() == 0 {
            1
        } else {
            digits_val(cd1)
        }) as u32,
        dice_sides: digits_val(sd1) as u32,
        modifier: None,
        roll_type: RollType::Regular,
    };
    assert(roll_at(t, 0) == RollParse::Parsed(roll1, l1));
    let pair1 = DiceRollWithOp { dice_roll: roll1, operation: Operation::Addition };
    assert(operator_at(t, 0) is None);
    assert(initial_at(t, 0) == InitParse::Parsed(pair1, l1));
    assert(blank_run_end(t, l1) == l1);
    assert(chain_at(t, l1) == ChainParse::Parsed(Seq::<DiceRollWithOp>::empty(), l1));
    assert(seq![pair1] + Seq::<DiceRollWithOp>::empty() =~= seq![pair1]);
    assert(group_at(t, 0) == GroupParse::Parsed(seq![pair1], l1));
    // The second group runs from just after the comma to the end.
    assert(operator_at(t, n) is None);
    assert(roll_type_at(t, n) == (RollType::Regular, n));
    let roll2 = DiceRoll {
        number_of_dice_to_roll: (if cd2.len() == 0 {
            1
        } else {
            digits_val(cd2)
        }) as u32,
        dice_sides: digits_val(sd2) as u32,
        modifier: None,
        roll_type: RollType::Regular,
    };
    assert(roll_at(t, i2) == RollParse::Parsed(roll2, n));
    let pair2 = DiceRollWithOp { dice_roll: roll2, operation: Operation::Addition };
    assert(operator_at(t, i2) is None);
    assert(initial_at(t, i2) == InitParse::Parsed(pair2, n));
    assert(blank_run_end(t, n) == n);
    assert(chain_at(t, n) == ChainParse::Parsed(Seq::<DiceRollWithOp>::empty(), n));
    assert(seq![pair2] + Seq::<DiceRollWithOp>::empty() =~= seq![pair2]);
    assert(group_at(t, i2) == GroupParse::Parsed(seq![pair2], n));
    assert(groups_at(t, i2) == GroupsParse::Parsed(seq![seq![pair2]], n));
    assert(groups_at(t, 0) == GroupsParse::Parsed(seq![seq![pair1]] + seq![seq![pair2]], n));
    assert(seq![seq![pair1]] + seq![seq![pair2]] =~= seq![seq![pair1], seq![pair2]]);
}

} // verus!
