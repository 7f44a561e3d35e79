//! Patterns made of plain characters alone: such a pattern holds of a
//! subject exactly where its text occurs in the subject.

use vstd::prelude::*;
use vstd::utf8::is_ascii_chars;
use crate::anchoring::AnchoringView;
use crate::ascii::is_alnum;
use crate::engine::{attempt, attempt_at, regex_accepts, repetition, run, test_outcome};
use crate::grep_error::GrepError;
use crate::evaluated_step::{lemma_last_backtrackable, total_size, EvalView};
use crate::pattern::{compile, compile_from, once, RegexView};
use crate::regex_step::StepView;
use crate::regex_value::ValueView;

verus! {

/// Whether a pattern text is made of letters, digits and blanks alone: the
/// characters that a pattern takes literally as they stand.
pub open spec fn is_plain(pattern: Seq<char>) -> bool {
    forall|i: int| 0 <= i < pattern.len() ==> is_alnum(#[trigger] pattern[i]) || pattern[i] == ' '
}

/// One step for each character of `word`, each to match that character
/// once.
pub open spec fn literal_steps(word: Seq<char>) -> Seq<StepView>
    decreases word.len(),
{
    if word.len() == 0 {
        Seq::empty()
    } else {
        seq![once(ValueView::Literal(word[0]))] + literal_steps(word.drop_first())
    }
}

/// Whether `word` stands in `text` at the position `at`.
pub open spec fn stands_at(word: Seq<char>, text: Seq<char>, at: int) -> bool {
    0 <= at && at + word.len() <= text.len() && text.subrange(at, at + word.len()) == word
}

/// Whether `word` occurs in `text` as a run of consecutive characters.
pub open spec fn occurs_in(word: Seq<char>, text: Seq<char>) -> bool {
    exists|at: int| #[trigger] stands_at(word, text, at)
}

/// What is left of a plain text without its first character is plain.
pub proof fn lemma_plain_tail(word: Seq<char>)
    requires
        is_plain(word),
        word.len() > 0,
    ensures
        is_plain(word.drop_first()),
        is_alnum(word[0]) || word[0] == ' ',
{
    let tail = word.drop_first();
    assert forall|i: int| 0 <= i < tail.len() implies is_alnum(#[trigger] tail[i]) || tail[i]
        == ' ' by {
        assert(tail[i] == word[i + 1]);
    }
}

/// A text of plain characters compiles to its literal steps, added to what
/// was compiled before it.
pub proof fn lemma_compile_plain(input: Seq<char>, steps: Seq<StepView>, anchoring: AnchoringView)
    requires
        is_plain(input),
    ensures
        compile_from(input, steps, anchoring) == Some(
            RegexView { steps: steps + literal_steps(input), anchoring },
        ),
    decreases input.len(),
{
    if input.len() == 0 {
        assert(steps + literal_steps(input) =~= steps);
    } else {
        let c = input[0];
        let rest = input.drop_first();
        lemma_plain_tail(input);
        let grown = steps.push(once(ValueView::Literal(c)));
        lemma_compile_plain(rest, grown, anchoring);
        assert(grown + literal_steps(rest) =~= steps + literal_steps(input));
    }
}

/// Where the word stands at a position, its first character stands there
/// and the rest of it stands at the next, and the other way round.
pub proof fn lemma_stands_at_unfold(word: Seq<char>, text: Seq<char>, at: int)
    requires
        word.len() > 0,
        0 <= at <= text.len(),
    ensures
        stands_at(word, text, at) <==> at < text.len() && text[at] == word[0] && stands_at(
            word.drop_first(),
            text,
            at + 1,
        ),
{
    let tail = word.drop_first();
    if stands_at(word, text, at) {
        assert(text.subrange(at, at + word.len())[0] == word[0]);
        assert(text.subrange(at + 1, at + 1 + tail.len()) =~= tail) by {
            assert forall|i: int| 0 <= i < tail.len() implies text.subrange(
                at + 1,
                at + 1 + tail.len(),
            )[i] == tail[i] by {
                assert(text.subrange(at, at + word.len())[i + 1] == word[i + 1]);
            }
        }
    }
    if at < text.len() && text[at] == word[0] && stands_at(tail, text, at + 1) {
        assert(text.subrange(at, at + word.len()) =~= word) by {
            assert forall|i: int| 0 <= i < word.len() implies text.subrange(at, at + word.len())[i]
                == word[i] by {
                if i > 0 {
                    assert(text.subrange(at + 1, at + 1 + tail.len())[i - 1] == tail[i - 1]);
                }
            }
        }
    }
}

/// With exact comparisons and no way back, an attempt on literal steps
/// succeeds just where the word stands at the cursor.
pub proof fn lemma_exact_literals(
    text: Seq<char>,
    anchored: bool,
    cursor: int,
    word: Seq<char>,
    evaluated: Seq<EvalView>,
)
    requires
        is_plain(word),
        is_ascii_chars(text),
        0 <= cursor <= text.len(),
        cursor > 0 || anchored,
        forall|j: int| 0 <= j < evaluated.len() ==> !(#[trigger] evaluated[j]).backtrackeable,
    ensures
        attempt(text, anchored, cursor, literal_steps(word), evaluated) == stands_at(
            word,
            text,
            cursor,
        ),
    decreases word.len(),
{
    let pending = literal_steps(word);
    if word.len() == 0 {
        assert(text.subrange(cursor, cursor + 0) =~= word);
    } else {
        let tail = word.drop_first();
        let step = once(ValueView::Literal(word[0]));
        lemma_plain_tail(word);
        assert(pending == seq![step] + literal_steps(tail));
        assert(pending[0] == step);
        assert(pending.drop_first() =~= literal_steps(tail));
        lemma_stands_at_unfold(word, text, cursor);
        lemma_last_backtrackable(evaluated);
        let rest_text = text.skip(cursor);
        let done = run(step, text, anchored, cursor, Some(1nat));
        if cursor < text.len() && text[cursor] == word[0] {
            assert(rest_text[0] == text[cursor]);
            let after = run(step, text, anchored, cursor + 1, Some(0nat));
            assert(after =~= Seq::<EvalView>::empty());
            assert(done =~= seq![repetition(step, 1)]);
            assert(total_size(done) == 1) by {
                assert(done.drop_first() =~= Seq::<EvalView>::empty());
                assert(total_size(done.drop_first()) == 0);
            }
            let entry = EvalView { step, match_size: 1, backtrackeable: false };
            let grown = evaluated.push(entry);
            assert forall|j: int| 0 <= j < grown.len() implies !(#[trigger] grown[j])
                .backtrackeable by {
                if j < evaluated.len() {
                    assert(grown[j] == evaluated[j]);
                }
            }
            lemma_exact_literals(text, anchored, cursor + 1, tail, grown);
        } else {
            if cursor < text.len() {
                assert(rest_text[0] == text[cursor]);
            }
            assert(done =~= Seq::<EvalView>::empty());
        }
    }
}

/// With a scanning first comparison, an attempt on literal steps from the
/// start of the subject succeeds just where the word stands at the first
/// occurrence of its first character.
pub proof fn lemma_scanned_literals(text: Seq<char>, word: Seq<char>)
    requires
        is_plain(word),
        is_ascii_chars(text),
        word.len() > 0,
    ensures
        attempt_at(text, false, literal_steps(word), 0) == stands_at(
            word,
            text,
            ValueView::Literal(word[0]).find_from(text, 0),
        ),
{
    let pending = literal_steps(word);
    let val = ValueView::Literal(word[0]);
    let tail = word.drop_first();
    let step = once(val);
    lemma_plain_tail(word);
    assert(pending == seq![step] + literal_steps(tail));
    assert(pending[0] == step);
    let found = val.find_from(text, 0);
    let none = Seq::<EvalView>::empty();
    val.lemma_find_from(text, 0);
    val.lemma_ascii_bounds(text);
    assert(text.skip(0) =~= text);
    assert(pending.drop_first() =~= literal_steps(tail));
    lemma_last_backtrackable(none);
    let done = run(step, text, false, 0, Some(1nat));
    if found < text.len() {
        lemma_stands_at_unfold(word, text, found);
        let size = (found + 1) as nat;
        let after = run(step, text, false, found + 1, Some(0nat));
        assert(after =~= Seq::<EvalView>::empty());
        assert(done =~= seq![repetition(step, size)]);
        assert(total_size(done) == size) by {
            assert(done.drop_first() =~= Seq::<EvalView>::empty());
            assert(total_size(done.drop_first()) == 0);
        }
        let entry = EvalView { step, match_size: size, backtrackeable: false };
        let grown = none.push(entry);
        lemma_exact_literals(text, false, found + 1, tail, grown);
    } else {
        assert(done =~= Seq::<EvalView>::empty());
    }
}

/// A text of plain characters compiles, and the pattern that it compiles to
/// holds of an ASCII subject exactly where the text occurs in the subject
/// as a run of consecutive characters.
pub proof fn lemma_plain_pattern_is_containment(pattern: Seq<char>, subject: Seq<char>)
    requires
        is_plain(pattern),
        is_ascii_chars(subject),
    ensures
        compile(pattern) is Some,
        regex_accepts(compile(pattern)->0, subject) <==> occurs_in(pattern, subject),
        test_outcome(compile(pattern)->0, subject) == Ok::<bool, GrepError>(
            occurs_in(pattern, subject),
        ),
{
    let unanchored = AnchoringView { start: false, end: false };
    lemma_compile_plain(pattern, Seq::empty(), unanchored);
    let steps = literal_steps(pattern);
    assert(Seq::<StepView>::empty() + steps =~= steps);
    let regex = compile(pattern)->0;
    assert(regex == RegexView { steps, anchoring: unanchored });
    let none = Seq::<EvalView>::empty();
    if regex_accepts(regex, subject) {
        let offset = choose|offset: int|
            0 <= offset <= subject.len() && #[trigger] attempt_at(subject, false, steps, offset);
        if offset > 0 {
            lemma_exact_literals(subject, false, offset, pattern, none);
        } else if pattern.len() > 0 {
            lemma_scanned_literals(subject, pattern);
        } else {
            assert(subject.subrange(0, 0) =~= pattern);
            assert(stands_at(pattern, subject, 0));
        }
    }
    if occurs_in(pattern, subject) {
        let at = choose|at: int| #[trigger] stands_at(pattern, subject, at);
        if at > 0 {
            lemma_exact_literals(subject, false, at, pattern, none);
        } else if pattern.len() > 0 {
            lemma_scanned_literals(subject, pattern);
            lemma_stands_at_unfold(pattern, subject, 0);
            ValueView::Literal(pattern[0]).lemma_find_from(subject, 0);
        }
        assert(attempt_at(subject, false, regex.steps, at));
    }
}

} // verus!
