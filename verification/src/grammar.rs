//! The dice-notation grammar, stated as specification functions over
//! sequences of characters.
//!
//! The text of one line, with every space character stripped, is parsed
//! by ordered recursive descent:
//!
//! ```text
//! groups       := group ("," group)*
//! group        := initial_term chained_term*
//! initial_term := [operator] dice_term
//! chained_term := operator dice_term
//! dice_term    := [count] "d" sides [modifier] [roll_type]
//! count        := digit+        (default 1)
//! sides        := digit+
//! modifier     := operator digit+   ; rejected if followed by "d" digit+
//! roll_type    := "a" | "d" (case-insensitive), only when immediately
//!                 followed by an operator, "," or end of input
//! operator     := "+" | "-"
//! ```
//!
//! Each function takes the character sequence and a position and says
//! what the recognizer starting there produces and where it stops.

use vstd::prelude::*;

use crate::dice_roll::{DiceRoll, Operation, RollType};
use crate::dice_roll_with_op::DiceRollWithOp;

verus! {

/// An ASCII decimal digit.
pub open spec fn spec_is_digit(c: char) -> bool {
    '0' as u32 <= c as u32 && c as u32 <= '9' as u32
}

/// A character that the end-of-statement recognizer consumes: the
/// space and tab run that may trail the last term of a group.
pub open spec fn spec_is_blank(c: char) -> bool {
    c == ' ' || c == '\t'
}

/// A character that counts as whitespace when the leftover text is
/// trimmed before the full-consumption check (ASCII whitespace).
pub open spec fn spec_is_trim_whitespace(c: char) -> bool {
    c == ' ' || c == '\t' || c == '\n' || c == '\r' || c == '\u{b}' || c == '\u{c}'
}

/// The end of the maximal digit run starting at `i`.
pub open spec fn digit_run_end(t: Seq<char>, i: int) -> int
    decreases t.len() - i,
{
    if 0 <= i && i < t.len() && spec_is_digit(t[i]) {
        digit_run_end(t, i + 1)
    } else {
        i
    }
}

/// The end of the maximal space/tab run starting at `i`.
pub open spec fn blank_run_end(t: Seq<char>, i: int) -> int
    decreases t.len() - i,
{
    if 0 <= i && i < t.len() && spec_is_blank(t[i]) {
        blank_run_end(t, i + 1)
    } else {
        i
    }
}

/// The numeric value of one digit character.
pub open spec fn digit_char_val(c: char) -> int {
    c as u32 - '0' as u32
}

/// The value of a run of digit characters read in base ten.
pub open spec fn digits_val(d: Seq<char>) -> int
    decreases d.len(),
{
    if d.len() == 0 {
        0
    } else {
        10 * digits_val(d.drop_last()) + digit_char_val(d.last())
    }
}

/// The dice count encoded by the digits in `t[from..to)`; an absent
/// (empty) count run defaults to one die.
pub open spec fn count_val(t: Seq<char>, from: int, to: int) -> int {
    if from == to {
        1
    } else {
        digits_val(t.subrange(from, to))
    }
}

/// The end-marker lookahead: the next character is an operator, a
/// comma, or the input is exhausted.  It disambiguates a bare
/// roll-type letter from the start of a longer token.
pub open spec fn at_end_marker(t: Seq<char>, i: int) -> bool {
    i >= t.len() || t[i] == '+' || t[i] == '-' || t[i] == ','
}

/// The operator recognizer: one `+` or `-` at `i` (consuming exactly
/// one character); `None` when neither is there.
pub open spec fn operator_at(t: Seq<char>, i: int) -> Option<Operation> {
    if 0 <= i && i < t.len() && t[i] == '+' {
        Some(Operation::Addition)
    } else if 0 <= i && i < t.len() && t[i] == '-' {
        Some(Operation::Subtraction)
    } else {
        None
    }
}

/// The roll-type recognizer: a case-insensitive `a` or `d` at `i`
/// immediately followed by an end marker maps to advantage or
/// disadvantage and is consumed; anything else yields `Regular` and
/// consumes nothing.
pub open spec fn roll_type_at(t: Seq<char>, i: int) -> (RollType, int) {
    if 0 <= i && i < t.len() && (t[i] == 'a' || t[i] == 'A') && at_end_marker(t, i + 1) {
        (RollType::WithAdvantage, i + 1)
    } else if 0 <= i && i < t.len() && (t[i] == 'd' || t[i] == 'D') && at_end_marker(t, i + 1) {
        (RollType::WithDisadvantage, i + 1)
    } else {
        (RollType::Regular, i)
    }
}

/// Where the `[count] "d" sides` part of a dice term ends: the count
/// digits occupy `[i, count_end)` (possibly empty), the separator sits
/// at `count_end`, and the sides digits occupy
/// `[count_end + 1, sides_end)` (never empty).
pub struct DiceParts {
    pub count_end: int,
    pub sides_end: int,
}

/// The `[count] "d" sides` recognizer.
pub open spec fn dice_parts_at(t: Seq<char>, i: int) -> Option<DiceParts> {
    let j = digit_run_end(t, i);
    if j < t.len() && (t[j] == 'd' || t[j] == 'D') && digit_run_end(t, j + 1) > j + 1 {
        Some(DiceParts { count_end: j, sides_end: digit_run_end(t, j + 1) })
    } else {
        None
    }
}

/// The lookahead that rejects a modifier whose digits are immediately
/// followed by another `"d" digit+` pattern, so that `1d6+2d4` splits
/// into two chained terms instead of one term with modifier `2`.
pub open spec fn dice_term_follows(t: Seq<char>, i: int) -> bool {
    0 <= i && i < t.len() && (t[i] == 'd' || t[i] == 'D') && digit_run_end(t, i + 1) > i + 1
}

/// A modifier magnitude with its operator's sign applied.
pub open spec fn signed_modifier(op: Operation, magnitude: int) -> int {
    match op {
        Operation::Addition => magnitude,
        Operation::Subtraction => -magnitude,
    }
}

/// What the dice-term recognizer produces: no match, a match whose
/// numbers do not fit their integer width, or a parsed term and the
/// position it stops at.
pub enum RollParse {
    NoMatch,
    Overflow,
    Parsed(DiceRoll, int),
}

/// The dice-term recognizer without a modifier: convert the count and
/// sides digits, then read an optional roll-type suffix at `p`.
pub open spec fn plain_roll_from(t: Seq<char>, i: int, parts: DiceParts, p: int) -> RollParse {
    let count = count_val(t, i, parts.count_end);
    let sides = digits_val(t.subrange(parts.count_end + 1, parts.sides_end));
    if count > u32::MAX || sides > u32::MAX {
        RollParse::Overflow
    } else {
        let (rt, next) = roll_type_at(t, p);
        RollParse::Parsed(
            (DiceRoll {
                number_of_dice_to_roll: count as u32,
                dice_sides: sides as u32,
                modifier: None,
                roll_type: rt,
            }),
            next,
        )
    }
}

/// The dice-term recognizer with a modifier: the magnitude digits are
/// `t[q..m)` and the roll-type suffix is read at `m`.
pub open spec fn modifier_roll_from(
    t: Seq<char>,
    i: int,
    parts: DiceParts,
    op: Operation,
    q: int,
    m: int,
) -> RollParse {
    let count = count_val(t, i, parts.count_end);
    let sides = digits_val(t.subrange(parts.count_end + 1, parts.sides_end));
    let magnitude = digits_val(t.subrange(q, m));
    if count > u32::MAX || sides > u32::MAX || magnitude > i32::MAX {
        RollParse::Overflow
    } else {
        let (rt, next) = roll_type_at(t, m);
        RollParse::Parsed(
            (DiceRoll {
                number_of_dice_to_roll: count as u32,
                dice_sides: sides as u32,
                modifier: Some(signed_modifier(op, magnitude) as i32),
                roll_type: rt,
            }),
            next,
        )
    }
}

/// The full dice-term recognizer.  The modifier form is tried first;
/// when its grammar does not match, the form without a modifier is
/// tried from the same position.  A form whose grammar matches commits,
/// so numbers that do not fit surface as `Overflow`, never as a retry
/// of the other form.
pub open spec fn roll_at(t: Seq<char>, i: int) -> RollParse {
    match dice_parts_at(t, i) {
        None => RollParse::NoMatch,
        Some(parts) => {
            let p = parts.sides_end;
            match operator_at(t, p) {
                Some(op) => {
                    let m = digit_run_end(t, p + 1);
                    if m > p + 1 && !dice_term_follows(t, m) {
                        modifier_roll_from(t, i, parts, op, p + 1, m)
                    } else {
                        plain_roll_from(t, i, parts, p)
                    }
                },
                None => plain_roll_from(t, i, parts, p),
            }
        },
    }
}

/// What the chained-statement recognizer produces.  It cannot fail to
/// match: when no further `operator dice_term` follows, it consumes an
/// optional space/tab run and yields the empty sequence.
pub enum ChainParse {
    Overflow,
    Parsed(Seq<DiceRollWithOp>, int),
}

/// Zero or more chained `operator dice_term` statements starting at
/// `i`, in source order.
pub open spec fn chain_at(t: Seq<char>, i: int) -> ChainParse
    decreases t.len() - i,
{
    match operator_at(t, i) {
        None => ChainParse::Parsed(Seq::empty(), blank_run_end(t, i)),
        Some(op) => match roll_at(t, i + 1) {
            RollParse::NoMatch => ChainParse::Parsed(Seq::empty(), blank_run_end(t, i)),
            RollParse::Overflow => ChainParse::Overflow,
            RollParse::Parsed(roll, p) => {
                if i < p && p <= t.len() {
                    match chain_at(t, p) {
                        ChainParse::Overflow => ChainParse::Overflow,
                        ChainParse::Parsed(tail, r) => ChainParse::Parsed(
                            seq![DiceRollWithOp { dice_roll: roll, operation: op }] + tail,
                            r,
                        ),
                    }
                } else {
                    // A parsed dice term always advances, so this branch is
                    // never taken; it only keeps the recursion well-founded.
                    ChainParse::Parsed(Seq::empty(), i)
                }
            },
        },
    }
}

/// What the initial-statement recognizer produces.
pub enum InitParse {
    NoMatch,
    Overflow,
    Parsed(DiceRollWithOp, int),
}

/// The first statement of a group: an optional leading operator
/// (defaulting to `Addition`) followed by one dice term.  A consumed
/// operator commits: the term must follow it.
pub open spec fn initial_at(t: Seq<char>, i: int) -> InitParse {
    match operator_at(t, i) {
        Some(op) => match roll_at(t, i + 1) {
            RollParse::NoMatch => InitParse::NoMatch,
            RollParse::Overflow => InitParse::Overflow,
            RollParse::Parsed(roll, p) => InitParse::Parsed(
                (DiceRollWithOp { dice_roll: roll, operation: op }),
                p,
            ),
        },
        None => match roll_at(t, i) {
            RollParse::NoMatch => InitParse::NoMatch,
            RollParse::Overflow => InitParse::Overflow,
            RollParse::Parsed(roll, p) => InitParse::Parsed(
                (DiceRollWithOp { dice_roll: roll, operation: Operation::Addition }),
                p,
            ),
        },
    }
}

/// What the group recognizer produces.
pub enum GroupParse {
    NoMatch,
    Overflow,
    Parsed(Seq<DiceRollWithOp>, int),
}

/// One group: the initial statement followed by its chained
/// statements; always at least one entry.
pub open spec fn group_at(t: Seq<char>, i: int) -> GroupParse {
    match initial_at(t, i) {
        InitParse::NoMatch => GroupParse::NoMatch,
        InitParse::Overflow => GroupParse::Overflow,
        InitParse::Parsed(first, p) => match chain_at(t, p) {
            ChainParse::Overflow => GroupParse::Overflow,
            ChainParse::Parsed(tail, r) => GroupParse::Parsed(seq![first] + tail, r),
        },
    }
}

/// What the groups recognizer produces.
pub enum GroupsParse {
    NoMatch,
    Overflow,
    Parsed(Seq<Seq<DiceRollWithOp>>, int),
}

/// One group, optionally followed by a comma and further groups.  When
/// the text after a comma is not itself a parsable run of groups, the
/// comma is left unconsumed and the groups read so far stand (the
/// leftover text then fails the full-consumption check upstream).
pub open spec fn groups_at(t: Seq<char>, i: int) -> GroupsParse
    decreases t.len() - i,
{
    match group_at(t, i) {
        GroupParse::NoMatch => GroupsParse::NoMatch,
        GroupParse::Overflow => GroupsParse::Overflow,
        GroupParse::Parsed(g, p) => {
            if 0 <= p && p < t.len() && t[p] == ',' && i < p + 1 {
                match groups_at(t, p + 1) {
                    GroupsParse::NoMatch => GroupsParse::Parsed(seq![g], p),
                    GroupsParse::Overflow => GroupsParse::Overflow,
                    GroupsParse::Parsed(gs, r) => GroupsParse::Parsed(seq![g] + gs, r),
                }
            } else {
                GroupsParse::Parsed(seq![g], p)
            }
        },
    }
}

/// The input with every space character removed, order kept.
pub open spec fn strip_spaces(s: Seq<char>) -> Seq<char>
    decreases s.len(),
{
    if s.len() == 0 {
        Seq::empty()
    } else if s.last() == ' ' {
        strip_spaces(s.drop_last())
    } else {
        strip_spaces(s.drop_last()).push(s.last())
    }
}

/// Every character of `t` from `i` on is whitespace, so the leftover
/// text trims to nothing.
pub open spec fn all_trailing_whitespace(t: Seq<char>, i: int) -> bool {
    forall|k: int| i <= k < t.len() ==> spec_is_trim_whitespace(#[trigger] t[k])
}

/// What parsing one whole line produces: the groups, a grammar
/// mismatch (with the stripped text as context), leftover unconsumed
/// text, or a number that does not fit its integer width.
pub enum LineParse {
    Parsed(Seq<Seq<DiceRollWithOp>>),
    Mismatch(Seq<char>),
    Trailing(Seq<char>),
    BadNumber,
}

/// The entry point's behaviour: strip spaces, run the groups
/// recognizer over the whole text, and demand that what remains trims
/// to nothing.
pub open spec fn line_parse(s: Seq<char>) -> LineParse {
    let t = strip_spaces(s);
    match groups_at(t, 0) {
        GroupsParse::NoMatch => LineParse::Mismatch(t),
        GroupsParse::Overflow => LineParse::BadNumber,
        GroupsParse::Parsed(gs, p) => {
            if all_trailing_whitespace(t, p) {
                LineParse::Parsed(gs)
            } else {
                LineParse::Trailing(t.subrange(p, t.len() as int))
            }
        },
    }
}

/// A non-empty run of digit characters.
pub open spec fn digit_string(s: Seq<char>) -> bool {
    s.len() > 0 && forall|k: int| 0 <= k < s.len() ==> spec_is_digit(#[trigger] s[k])
}

/// The value of a digit run is never negative.
pub proof fn lemma_digits_val_nonneg(d: Seq<char>)
    requires
        forall|k: int| 0 <= k < d.len() ==> spec_is_digit(#[trigger] d[k]),
    ensures
        digits_val(d) >= 0,
    decreases d.len(),
{
    if d.len() > 0 {
        lemma_digits_val_nonneg(d.drop_last());
    }
}

/// Dropping digits from the right end of a run never increases its value.
pub proof fn lemma_digits_val_take(d: Seq<char>, j: int)
    requires
        0 <= j <= d.len(),
        forall|k: int| 0 <= k < d.len() ==> spec_is_digit(#[trigger] d[k]),
    ensures
        digits_val(d.take(j)) <= digits_val(d),
    decreases d.len(),
{
    if j == d.len() {
        assert(d.take(j) =~= d);
    } else {
        lemma_digits_val_nonneg(d.drop_last());
        assert(d.take(j) =~= d.drop_last().take(j));
        lemma_digits_val_take(d.drop_last(), j);
    }
}

/// Everything inside the maximal digit run is a digit, and the run
/// stays inside the input.
pub proof fn lemma_digit_run_end_digits(t: Seq<char>, i: int)
    requires
        0 <= i <= t.len(),
    ensures
        i <= digit_run_end(t, i) <= t.len(),
        forall|k: int| i <= k < digit_run_end(t, i) ==> spec_is_digit(#[trigger] t[k]),
    decreases t.len() - i,
{
    if i < t.len() && spec_is_digit(t[i]) {
        lemma_digit_run_end_digits(t, i + 1);
    }
}

/// A region of digits that ends at the end of the input or at a
/// non-digit is exactly the maximal digit run.
pub proof fn lemma_digit_run_end_is(t: Seq<char>, i: int, e: int)
    requires
        0 <= i <= e <= t.len(),
        forall|k: int| i <= k < e ==> spec_is_digit(#[trigger] t[k]),
        e == t.len() || !spec_is_digit(t[e]),
    ensures
        digit_run_end(t, i) == e,
    decreases e - i,
{
    if i < e {
        lemma_digit_run_end_is(t, i + 1, e);
    }
}

/// How stripping spaces treats one appended character.
pub proof fn lemma_strip_spaces_push(s: Seq<char>, c: char)
    ensures
        c == ' ' ==> strip_spaces(s.push(c)) == strip_spaces(s),
        c != ' ' ==> strip_spaces(s.push(c)) == strip_spaces(s).push(c),
{
    assert(s.push(c).drop_last() =~= s);
}

/// Text without space characters passes through stripping unchanged.
pub proof fn lemma_strip_spaces_no_spaces(s: Seq<char>)
    requires
        forall|k: int| 0 <= k < s.len() ==> (#[trigger] s[k]) != ' ',
    ensures
        strip_spaces(s) == s,
    decreases s.len(),
{
    if s.len() > 0 {
        lemma_strip_spaces_no_spaces(s.drop_last());
        assert(strip_spaces(s.drop_last()).push(s.last()) =~= s);
    }
}

} // verus!
