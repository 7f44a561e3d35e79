//! The two bracketed forms of a pattern: the character list `[...]` and the
//! repetition count `{...}`.

use vstd::prelude::*;
use crate::ascii::{char_is_digit, is_digit};
use crate::char_cursor::CharCursor;
use crate::character_class::CharacterClass;
use crate::grep_error::GrepError;
use crate::regex_clase::ClassView;
use crate::regex_rep::RegexRep;
use crate::regex_step::{RegexStep, StepView};
use crate::regex_value::{RegexValue, ValueView};

verus! {

/// Whether a bracket expression whose content is `input` is negated.
pub open spec fn bracket_negated(input: Seq<char>) -> bool {
    input.len() > 0 && input[0] == '^'
}

/// The content of a bracket expression after its negation mark, if any.
pub open spec fn bracket_body(input: Seq<char>) -> Seq<char> {
    if bracket_negated(input) {
        input.drop_first()
    } else {
        input
    }
}

/// The class that a bracket expression writes: the characters up to the
/// next `]`, negated where a `^` leads them. `None` where no `]` follows.
pub open spec fn bracket_class(input: Seq<char>) -> Option<ClassView> {
    match bracket_body(input).index_of_first(']') {
        Some(close) => Some(
            ClassView::Custom(bracket_body(input).take(close), bracket_negated(input)),
        ),
        None => None,
    }
}

/// What the reader of a bracket expression leaves unread of `input`: what
/// follows the next `]`.
pub open spec fn after_bracket(input: Seq<char>) -> Seq<char> {
    match bracket_body(input).index_of_first(']') {
        Some(close) => bracket_body(input).skip(close + 1),
        None => Seq::empty(),
    }
}

/// The least index at or after `from` of a character that is neither a
/// digit nor a comma, or the length of `input` where there is none.
pub open spec fn counts_end(input: Seq<char>, from: int) -> int
    decreases input.len() - from,
{
    if from < 0 || from >= input.len() {
        input.len() as int
    } else if is_digit(input[from]) || input[from] == ',' {
        counts_end(input, from + 1)
    } else {
        from
    }
}

/// The number that a decimal digit stands for.
pub open spec fn digit_value(c: char) -> nat {
    (c as u32 - '0' as u32) as nat
}

/// The number that the digits of `text` write in base ten, read past any
/// other character; zero where it holds no digit.
pub open spec fn decimal(text: Seq<char>) -> nat
    decreases text.len(),
{
    if text.len() == 0 {
        0
    } else if is_digit(text.last()) {
        decimal(text.drop_last()) * 10 + digit_value(text.last())
    } else {
        decimal(text.drop_last())
    }
}

/// Whether `text` holds a digit.
pub open spec fn has_digit(text: Seq<char>) -> bool {
    exists|i: int| 0 <= i < text.len() && is_digit(#[trigger] text[i])
}

/// The part of a repetition count before its first comma: the least count.
pub open spec fn count_low(body: Seq<char>) -> Seq<char> {
    match body.index_of_first(',') {
        Some(comma) => body.take(comma),
        None => body,
    }
}

/// The part of a repetition count after its first comma: the greatest
/// count, if it holds a digit.
pub open spec fn count_high(body: Seq<char>) -> Seq<char> {
    match body.index_of_first(',') {
        Some(comma) => body.skip(comma + 1),
        None => Seq::empty(),
    }
}

/// The repetition that a `{...}` whose content starts `input` writes.
///
/// The content runs over digits and commas up to a closing `}`. The digits
/// before the first comma give the least count, and there has to be one; the
/// digits after it give the greatest count, which is open where there are
/// none. `None` where the `}` is missing or another character comes first,
/// where no least count is written, and where a count is too large for
/// `usize`.
pub open spec fn brace_rep(input: Seq<char>) -> Option<RegexRep> {
    let end = counts_end(input, 0);
    let body = input.take(end);
    if end >= input.len() || input[end] != '}' {
        None
    } else if count_low(body).len() == 0 || decimal(count_low(body)) > usize::MAX || decimal(
        count_high(body),
    ) > usize::MAX {
        None
    } else {
        Some(
            RegexRep::Range {
                min: Some(decimal(count_low(body)) as usize),
                max: if has_digit(count_high(body)) {
                    Some(decimal(count_high(body)) as usize)
                } else {
                    None
                },
            },
        )
    }
}

/// What the reader of a `{...}` leaves unread of `input`: it reads the
/// digits and commas and one character more.
pub open spec fn after_brace(input: Seq<char>) -> Seq<char> {
    let end = counts_end(input, 0);
    if end < input.len() {
        input.skip(end + 1)
    } else {
        Seq::empty()
    }
}

/// `steps` with the repetition of its last step replaced.
pub open spec fn with_last_rep(steps: Seq<StepView>, rep: RegexRep) -> Seq<StepView> {
    if steps.len() == 0 {
        steps
    } else {
        steps.update(steps.len() - 1, StepView { val: steps.last().val, rep })
    }
}

/// `counts_end` is the first position that holds neither digit nor comma.
pub proof fn lemma_counts_end(input: Seq<char>, from: int)
    requires
        0 <= from <= input.len(),
    ensures
        from <= counts_end(input, from) <= input.len(),
        forall|j: int|
            from <= j < counts_end(input, from) ==> is_digit(#[trigger] input[j]) || input[j]
                == ',',
        counts_end(input, from) < input.len() ==> !is_digit(input[counts_end(input, from)])
            && input[counts_end(input, from)] != ',',
    decreases input.len() - from,
{
    if from < input.len() && (is_digit(input[from]) || input[from] == ',') {
        lemma_counts_end(input, from + 1);
    }
}

/// A character that is no digit adds none.
pub proof fn lemma_has_digit_push(text: Seq<char>, c: char)
    ensures
        has_digit(text.push(c)) <==> has_digit(text) || is_digit(c),
{
    let longer = text.push(c);
    if has_digit(text) {
        let i = choose|i: int| 0 <= i < text.len() && is_digit(#[trigger] text[i]);
        assert(is_digit(longer[i]));
    }
    if is_digit(c) {
        assert(is_digit(longer[text.len() as int]));
    }
    if has_digit(longer) {
        let i = choose|i: int| 0 <= i < longer.len() && is_digit(#[trigger] longer[i]);
        if i < text.len() {
            assert(is_digit(text[i]));
        }
    }
}

/// Reads `digits` as a number in base ten. `None` where `digits` is empty,
/// holds another character, or writes a number too large for `usize`.
pub fn parse_count(digits: &Vec<char>) -> (count: Option<usize>)
    ensures
        count is Some <==> digits@.len() > 0 && (forall|j: int|
            0 <= j < digits@.len() ==> is_digit(digits@[j])) && decimal(digits@) <= usize::MAX,
        count matches Some(n) ==> n == decimal(digits@),
{
    if digits.len() == 0 {
        return None;
    }
    let mut value: usize = 0;
    let mut overflow = false;
    let mut i: usize = 0;
    while i < digits.len()
        invariant
            i <= digits.len(),
            forall|j: int| 0 <= j < i ==> is_digit(digits@[j]),
            !overflow ==> value == decimal(digits@.take(i as int)),
            overflow ==> decimal(digits@.take(i as int)) > usize::MAX,
        decreases digits.len() - i,
    {
        let c = digits[i];
        if !char_is_digit(c) {
            return None;
        }
        proof {
            assert(digits@.take(i + 1).drop_last() =~= digits@.take(i as int));
            assert(digits@.take(i + 1).last() == c);
        }
        let d: usize = (c as u32 - '0' as u32) as usize;
        if !overflow {
            match value.checked_mul(10) {
                Some(tens) => match tens.checked_add(d) {
                    Some(next) => {
                        value = next;
                    },
                    None => {
                        overflow = true;
                    },
                },
                None => {
                    overflow = true;
                },
            }
        }
        i += 1;
    }
    proof {
        assert(digits@.take(i as int) =~= digits@);
    }
    if overflow {
        None
    } else {
        Some(value)
    }
}

/// The reader of the two bracketed forms of a pattern: the repetition count
/// `{...}` and the character list `[...]`.
pub struct BracketExpression;

impl Default for BracketExpression {
    fn default() -> (reader: Self)
        ensures
            reader == BracketExpression,
    {
        BracketExpression::new()
    }
}

impl BracketExpression {
    /// The reader; it holds no state.
    pub fn new() -> (reader: Self)
        ensures
            reader == BracketExpression,
    {
        BracketExpression
    }

    /// Reads a repetition count whose opening `{` has been read already, and
    /// gives it to the last of `steps`.
    ///
    /// It reads digits and commas, and one character more, which has to be
    /// the closing `}`. On success the last step's repetition becomes the
    /// range that was written; on failure `steps` is left as it was. It
    /// fails where the count is not well formed (see `brace_rep`) and where
    /// `steps` is empty.
    pub fn read_bracket_expression_c(
        chars_iter: &mut CharCursor,
        steps: &mut [RegexStep],
    ) -> (done: Result<(), GrepError>)
        ensures
            final(chars_iter).remaining() == after_brace(old(chars_iter).remaining()),
            done is Ok <==> brace_rep(old(chars_iter).remaining()) is Some && old(steps)@.len() > 0,
            done matches Err(e) ==> e == GrepError::ErrRegex,
            done is Ok ==> final(steps).deep_view() == with_last_rep(
                old(steps).deep_view(),
                brace_rep(old(chars_iter).remaining())->0,
            ),
            done is Err ==> final(steps).deep_view() == old(steps).deep_view(),
    {
        let ghost input = chars_iter.remaining();
        let ghost before = steps.deep_view();
        let mut min: Vec<char> = Vec::new();
        let mut max: Vec<char> = Vec::new();
        let mut mode = false;
        let ghost mut read: int = 0;
        let ghost mut comma: int = 0;
        let mut last: Option<char> = None;
        loop
            invariant_except_break
                last is None,
            invariant
                input == old(chars_iter).remaining(),
                0 <= read <= input.len(),
                last is None ==> chars_iter.remaining() == input.skip(read),
                last is Some ==> read < input.len() && input[read] == last->0
                    && chars_iter.remaining() == input.skip(read + 1),
                counts_end(input, 0) == counts_end(input, read),
                forall|j: int| 0 <= j < min@.len() ==> is_digit(min@[j]),
                forall|j: int| 0 <= j < max@.len() ==> is_digit(max@[j]),
                !mode ==> min@ == input.take(read) && max@.len() == 0,
                mode ==> 0 <= comma < read && input[comma] == ',' && min@ == input.take(comma)
                    && decimal(max@) == decimal(input.subrange(comma + 1, read)) && (max@.len() > 0
                    <==> has_digit(input.subrange(comma + 1, read))),
            ensures
                last is None ==> read == input.len(),
                last matches Some(c) ==> !is_digit(c) && c != ',',
            decreases chars_iter.remaining().len(),
        {
            match chars_iter.next() {
                Some(c) => {
                    proof {
                        assert(c == input[read]);
                        assert(input.skip(read).drop_first() =~= input.skip(read + 1));
                    }
                    if char_is_digit(c) {
                        if !mode {
                            min.push(c);
                            proof {
                                assert(min@ =~= input.take(read + 1));
                            }
                        } else {
                            let ghost prior = max@;
                            max.push(c);
                            proof {
                                let grown = input.subrange(comma + 1, read + 1);
                                assert(grown.drop_last() =~= input.subrange(comma + 1, read));
                                assert(grown.last() == c);
                                assert(max@.drop_last() =~= prior);
                                assert(is_digit(grown[read - comma - 1]));
                            }
                        }
                    } else if c == ',' {
                        proof {
                            if mode {
                                let grown = input.subrange(comma + 1, read + 1);
                                assert(grown.drop_last() =~= input.subrange(comma + 1, read));
                                assert(grown.last() == c);
                                lemma_has_digit_push(input.subrange(comma + 1, read), c);
                                assert(grown =~= input.subrange(comma + 1, read).push(c));
                            } else {
                                comma = read;
                                assert(input.subrange(read + 1, read + 1) =~= Seq::<char>::empty());
                            }
                        }
                        mode = true;
                    } else {
                        last = Some(c);
                        break ;
                    }
                    proof {
                        read = read + 1;
                    }
                },
                None => {
                    break ;
                },
            }
        }
        proof {
            lemma_counts_end(input, read);
        }
        if last != Some('}') {
            return Err(GrepError::ErrRegex);
        }
        let ghost body = input.take(read);
        proof {
            body.index_of_first_ensures(',');
            if mode {
                assert(body[comma] == ',');
                assert(body.contains(','));
                assert(forall|j: int| 0 <= j < comma ==> body[j] == min@[j]);
                assert(body.index_of_first(',') == Some(comma));
                assert(body.take(comma) =~= input.take(comma));
                assert(body.skip(comma + 1) =~= input.subrange(comma + 1, read));
            } else {
                assert(forall|j: int| 0 <= j < read ==> body[j] == min@[j]);
                assert(body.index_of_first(',') is None);
                assert(decimal(Seq::<char>::empty()) == 0);
            }
            assert(min@ == count_low(body));
            assert(decimal(max@) == decimal(count_high(body)));
            assert(max@.len() > 0 <==> has_digit(count_high(body)));
        }
        let min = match parse_count(&min) {
            Some(n) => n,
            None => {
                return Err(GrepError::ErrRegex);
            },
        };
        let max = if max.len() == 0 {
            None
        } else {
            match parse_count(&max) {
                Some(n) => Some(n),
                None => {
                    return Err(GrepError::ErrRegex);
                },
            }
        };
        let rep = RegexRep::Range { min: Some(min), max };
        match steps.last_mut() {
            Some(last) => {
                last.rep = rep;
            },
            None => {
                return Err(GrepError::ErrRegex);
            },
        }
        proof {
            assert(steps.deep_view() =~= with_last_rep(before, rep));
        }
        Ok(())
    }

    /// Reads a bracket expression whose opening `[` has been read already:
    /// an optional `^` for negation, then the listed characters up to the
    /// next `]`. It fails where the input ends before a `]`.
    pub fn read_bracket_expression(chars_iter: &mut CharCursor) -> (value: Result<
        RegexValue,
        GrepError,
    >)
        ensures
            final(chars_iter).remaining() == after_bracket(old(chars_iter).remaining()),
            match value {
                Ok(v) => bracket_class(old(chars_iter).remaining()) is Some && v@
                    == ValueView::Clase(bracket_class(old(chars_iter).remaining())->0),
                Err(e) => e == GrepError::ErrRegex && bracket_class(old(chars_iter).remaining())
                    is None,
            },
    {
        let ghost input = chars_iter.remaining();
        let mut negated = false;
        if chars_iter.peek(0) == Some('^') {
            let _ = chars_iter.next();
            negated = true;
        }
        let ghost body = bracket_body(input);
        let mut characters: Vec<char> = Vec::new();
        let mut closed = false;
        loop
            invariant_except_break
                !closed,
            invariant
                body == bracket_body(old(chars_iter).remaining()),
                characters@.len() <= body.len(),
                characters@ == body.take(characters@.len() as int),
                forall|j: int| 0 <= j < characters@.len() ==> characters@[j] != ']',
                closed ==> chars_iter.remaining() == body.skip(characters@.len() as int + 1),
                !closed ==> chars_iter.remaining() == body.skip(characters@.len() as int),
            ensures
                closed ==> body.index_of_first(']') == Some(characters@.len() as int),
                !closed ==> body.index_of_first(']') is None && chars_iter.remaining().len() == 0,
            decreases chars_iter.remaining().len(),
        {
            let ghost read = characters@.len() as int;
            match chars_iter.next() {
                Some(inner_c) => {
                    proof {
                        assert(inner_c == body[read]);
                        assert(body.skip(read).drop_first() =~= body.skip(read + 1));
                    }
                    if inner_c == ']' {
                        closed = true;
                        proof {
                            assert(forall|j: int| 0 <= j < read ==> body[j] == characters@[j]);
                            body.index_of_first_ensures(']');
                            assert(body.contains(']'));
                        }
                        break ;
                    }
                    characters.push(inner_c);
                    proof {
                        assert(characters@ =~= body.take(read + 1));
                    }
                },
                None => {
                    proof {
                        assert(read == body.len());
                        assert(forall|j: int| 0 <= j < body.len() ==> body[j] == characters@[j]);
                        body.index_of_first_ensures(']');
                    }
                    break ;
                },
            }
        }
        if !closed {
            return Err(GrepError::ErrRegex);
        }
        let clase = CharacterClass::Custom(characters, negated);
        Ok(RegexValue::Clase(clase.to_regex_clase()))
    }
}

} // verus!
