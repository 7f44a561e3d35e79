//! Compiled patterns: compiling a pattern text, and testing a subject
//! against the result.

use vstd::prelude::*;
use vstd::string::StrSliceExecFns;
use std::collections::VecDeque;
use crate::anchoring::Anchoring;
use crate::ascii::char_is_alnum;
use crate::bracket_expression::{
    bracket_body, lemma_counts_end, with_last_rep, BracketExpression,
};
use crate::char_cursor::{chars_of, CharCursor};
use crate::character_class::CharacterClass;
use crate::engine::{
    advance, attempt, attempt_at, lemma_advance_bounds, lemma_backtrack_lowers,
    lemma_exact_lowers, lemma_run, lemma_run_lowers, lemma_unwound_size, one_less, rep_limit,
    repetition, run, test_outcome, work_left,
};
use crate::evaluated_step::{
    lemma_total_size_append, lemma_total_size_push, requeued, total_size, EvalView,
    EvaluatedStep,
};
use crate::grep_error::GrepError;
use crate::pattern::{
    compile, compile_alternative, compile_alternatives, compile_from, joined,
    lemma_joined_assoc, lemma_joined_empty, RegexView,
};
use crate::regex_rep::RegexRep;
use crate::regex_step::{RegexStep, StepView};
use crate::regex_value::RegexValue;
use crate::views::{lemma_deep_view_push, lemma_deep_view_push_back};

verus! {

/// Two patterns compiled from the same text give the same outcome on every
/// subject.
pub proof fn lemma_same_text_same_outcome(
    first: Regex,
    second: Regex,
    pattern: Seq<char>,
    subject: Seq<char>,
)
    requires
        compile(pattern) == Some(first@),
        compile(pattern) == Some(second@),
    ensures
        test_outcome(first@, subject) == test_outcome(second@, subject),
{
}

/// A compiled pattern.
#[derive(Debug)]
pub struct Regex {
    steps: Vec<RegexStep>,
    anchoring: Anchoring,
}

impl View for Regex {
    type V = RegexView;

    closed spec fn view(&self) -> RegexView {
        RegexView { steps: self.steps.deep_view(), anchoring: self.anchoring@ }
    }
}

/// A copy of `steps`.
fn clone_steps(steps: &Vec<RegexStep>) -> (copy: Vec<RegexStep>)
    ensures
        copy.deep_view() == steps.deep_view(),
{
    let mut copy: Vec<RegexStep> = Vec::new();
    let mut i: usize = 0;
    while i < steps.len()
        invariant
            i <= steps.len(),
            copy.deep_view() == steps.deep_view().take(i as int),
        decreases steps.len() - i,
    {
        let ghost copied = copy;
        let step = steps[i].clone();
        let ghost added = step;
        copy.push(step);
        i += 1;
        proof {
            lemma_deep_view_push(copied, copy, added);
            assert(copy.deep_view() =~= steps.deep_view().take(i as int));
        }
    }
    proof {
        assert(steps.deep_view().take(i as int) =~= steps.deep_view());
    }
    copy
}

impl DeepView for Regex {
    type V = RegexView;

    open spec fn deep_view(&self) -> RegexView {
        self@
    }
}

impl Clone for Regex {
    fn clone(&self) -> (res: Self)
        ensures
            res@ == self@,
    {
        Regex { steps: clone_steps(&self.steps), anchoring: self.anchoring }
    }
}

/// The steps of a pattern as the queue with which an attempt starts.
fn queue_of(steps: &Vec<RegexStep>) -> (queue: VecDeque<RegexStep>)
    ensures
        queue.deep_view() == steps.deep_view(),
{
    let mut queue: VecDeque<RegexStep> = VecDeque::new();
    let mut i: usize = 0;
    while i < steps.len()
        invariant
            i <= steps.len(),
            queue.deep_view() == steps.deep_view().take(i as int),
        decreases steps.len() - i,
    {
        let ghost queued = queue;
        let step = steps[i].clone();
        let ghost added = step;
        queue.push_back(step);
        i += 1;
        proof {
            lemma_deep_view_push_back(queued, queue, added);
            assert(queue.deep_view() =~= steps.deep_view().take(i as int));
        }
    }
    proof {
        assert(steps.deep_view().take(i as int) =~= steps.deep_view());
    }
    queue
}

/// One comparison of `val` at `cursor`: how far it advances, or zero.
fn compare(val: &RegexValue, value: &str, len: usize, anchored: bool, cursor: usize) -> (size:
    usize)
    requires
        value.is_ascii(),
        len == value@.len(),
        cursor <= len,
    ensures
        size == advance(val@, value@, anchored, cursor as int),
        cursor + size <= len,
{
    proof {
        lemma_advance_bounds(val@, value@, anchored, cursor as int);
    }
    let rest = value.substring_ascii(cursor, len);
    if cursor == 0 && !anchored {
        val.matches(rest)
    } else {
        val.is_same(rest)
    }
}

/// The limit that an executable count sets, as a natural number.
spec fn limit_of(limit: Option<usize>) -> Option<nat> {
    match limit {
        Some(l) => Some(l as nat),
        None => None,
    }
}

/// The greedy run of `step` from `cursor`, up to `limit` repetitions:
/// how many there were, and where the cursor stands after them.
fn consume(
    step: &RegexStep,
    value: &str,
    len: usize,
    anchored: bool,
    cursor: usize,
    limit: Option<usize>,
) -> (res: (usize, usize))
    requires
        value.is_ascii(),
        len == value@.len(),
        cursor <= len,
    ensures
        res.0 == run(step@, value@, anchored, cursor as int, limit_of(limit)).len(),
        res.1 == cursor + total_size(run(step@, value@, anchored, cursor as int, limit_of(limit))),
        res.1 <= len,
{
    let mut count: usize = 0;
    let mut at: usize = cursor;
    let ghost mut done: Seq<EvalView> = Seq::empty();
    let ghost whole = run(step@, value@, anchored, cursor as int, limit_of(limit));
    proof {
        assert(done + whole =~= whole);
    }
    loop
        invariant
            value.is_ascii(),
            len == value@.len(),
            cursor <= at <= len,
            count == done.len(),
            count <= at - cursor,
            at == cursor + total_size(done),
            limit matches Some(l) ==> count <= l,
            whole == run(step@, value@, anchored, cursor as int, limit_of(limit)),
            whole == done + run(
                step@,
                value@,
                anchored,
                at as int,
                match limit {
                    Some(l) => Some((l - count) as nat),
                    None => None,
                },
            ),
        ensures
            count == whole.len(),
            at == cursor + total_size(whole),
            at <= len,
        decreases len - at,
    {
        let ghost left: Option<nat> = match limit {
            Some(l) => Some((l - count) as nat),
            None => None,
        };
        let ghost tail = run(step@, value@, anchored, at as int, left);
        let reached = match limit {
            Some(l) => count >= l,
            None => false,
        };
        if reached {
            proof {
                assert(tail =~= Seq::<EvalView>::empty());
                assert(done + tail =~= done);
            }
            break ;
        }
        let size = compare(&step.val, value, len, anchored, at);
        if size == 0 {
            proof {
                assert(tail =~= Seq::<EvalView>::empty());
                assert(done + tail =~= done);
            }
            break ;
        }
        proof {
            let entry = repetition(step@, size as nat);
            let after = run(step@, value@, anchored, at + size, one_less(left));
            assert(tail == seq![entry] + after);
            assert(done + tail =~= done.push(entry) + after);
            lemma_total_size_push(done, entry);
            done = done.push(entry);
        }
        at += size;
        count += 1;
    }
    (count, at)
}

/// The greedy run of the zero-or-more step `step` from `cursor`: puts each
/// repetition on `stack` and returns where the cursor stands after them.
fn consume_any(
    step: &RegexStep,
    value: &str,
    len: usize,
    anchored: bool,
    cursor: usize,
    stack: &mut Vec<EvaluatedStep>,
) -> (end: usize)
    requires
        value.is_ascii(),
        len == value@.len(),
        cursor <= len,
    ensures
        final(stack).deep_view() == old(stack).deep_view() + run(
            step@,
            value@,
            anchored,
            cursor as int,
            None,
        ),
        end == cursor + total_size(run(step@, value@, anchored, cursor as int, None)),
        end <= len,
{
    let mut at: usize = cursor;
    let ghost before = stack.deep_view();
    let ghost mut done: Seq<EvalView> = Seq::empty();
    let ghost whole = run(step@, value@, anchored, cursor as int, None);
    proof {
        assert(done + whole =~= whole);
        assert(before + done =~= before);
    }
    loop
        invariant
            value.is_ascii(),
            len == value@.len(),
            cursor <= at <= len,
            at == cursor + total_size(done),
            before == old(stack).deep_view(),
            stack.deep_view() == before + done,
            whole == run(step@, value@, anchored, cursor as int, None),
            whole == done + run(step@, value@, anchored, at as int, None),
        ensures
            stack.deep_view() == before + whole,
            at == cursor + total_size(whole),
            at <= len,
        decreases len - at,
    {
        let ghost tail = run(step@, value@, anchored, at as int, None);
        let match_size = compare(&step.val, value, len, anchored, at);
        if match_size == 0 {
            proof {
                assert(tail =~= Seq::<EvalView>::empty());
                assert(done + tail =~= done);
            }
            break ;
        }
        let ghost held = *stack;
        let entry = EvaluatedStep { step: step.clone(), match_size, backtrackeable: true };
        let ghost added = entry;
        stack.push(entry);
        proof {
            let view = repetition(step@, match_size as nat);
            assert(added@ == view);
            let after = run(step@, value@, anchored, at + match_size, one_less(None));
            assert(tail == seq![view] + after);
            assert(done + tail =~= done.push(view) + after);
            lemma_total_size_push(done, view);
            lemma_deep_view_push(held, *stack, added);
            assert(before + done.push(view) =~= (before + done).push(view));
            done = done.push(view);
        }
        at += match_size;
    }
    at
}

/// Replaces the repetition of the last of `steps`; says whether there was
/// a step to change.
fn set_last_rep(steps: &mut Vec<RegexStep>, rep: RegexRep) -> (changed: bool)
    ensures
        changed == (old(steps)@.len() > 0),
        final(steps).deep_view() == with_last_rep(old(steps).deep_view(), rep),
{
    let ghost before = steps.deep_view();
    match steps.last_mut() {
        Some(last) => {
            last.rep = rep;
            proof {
                assert(steps.deep_view() =~= with_last_rep(before, rep));
            }
            true
        },
        None => false,
    }
}

impl Regex {
    /// Compiles the text of one pattern. It fails, with `ErrRegex`, exactly
    /// where the text is malformed.
    pub fn new(expression: &str) -> (regex: Result<Regex, GrepError>)
        ensures
            match regex {
                Ok(r) => compile(expression@) == Some(r@),
                Err(e) => e == GrepError::ErrRegex && compile(expression@) is None,
            },
    {
        Regex::compile_chars(CharCursor::new(expression))
    }

    /// Compiles the pattern that `source` has still to read.
    fn compile_chars(source: CharCursor) -> (regex: Result<Regex, GrepError>)
        ensures
            match regex {
                Ok(r) => compile(source.remaining()) == Some(r@),
                Err(e) => e == GrepError::ErrRegex && compile(source.remaining()) is None,
            },
    {
        let ghost expression = source.remaining();
        let mut chars_iter = source;
        let mut steps: Vec<RegexStep> = Vec::new();
        let mut anchoring = Anchoring::new();
        proof {
            assert(steps.deep_view() =~= Seq::<StepView>::empty());
        }
        loop
            invariant
                expression == source.remaining(),
                compile_from(chars_iter.remaining(), steps.deep_view(), anchoring@) == compile(
                    expression,
                ),
            ensures
                chars_iter.remaining().len() == 0,
                compile_from(chars_iter.remaining(), steps.deep_view(), anchoring@) == compile(
                    expression,
                ),
            decreases chars_iter.remaining().len(),
        {
            let ghost input = chars_iter.remaining();
            let ghost made = steps.deep_view();
            proof {
                if input.len() > 0 {
                    let rest = input.drop_first();
                    lemma_counts_end(rest, 0);
                    rest.index_of_first_ensures(']');
                    bracket_body(rest).index_of_first_ensures(']');
                }
            }
            let c = match chars_iter.next() {
                Some(c) => c,
                None => {
                    break ;
                },
            };
            let step = if c == '.' {
                Some(RegexStep { rep: RegexRep::Exact(1), val: RegexValue::Wildcard })
            } else if char_is_alnum(c) || c == ' ' {
                Some(RegexStep { rep: RegexRep::Exact(1), val: RegexValue::Literal(c) })
            } else if c == '*' {
                if !set_last_rep(&mut steps, RegexRep::Any) {
                    return Err(GrepError::ErrRegex);
                }
                None
            } else if c == '^' {
                if steps.len() == 0 {
                    anchoring.update_anchoring('^');
                } else {
                    return Err(GrepError::ErrRegex);
                }
                None
            } else if c == '$' {
                if chars_iter.peek(0).is_none() {
                    anchoring.update_anchoring('$');
                } else {
                    return Err(GrepError::ErrRegex);
                }
                None
            } else if c == '+' {
                if steps.len() == 0 {
                    return Err(GrepError::ErrRegex);
                }
                let rep = match steps[steps.len() - 1].rep {
                    RegexRep::Exact(n) => RegexRep::Range { min: Some(n), max: None },
                    RegexRep::Range { min, max } => match min {
                        Some(min_value) => match min_value.checked_add(1) {
                            Some(grown) => RegexRep::Range { min: Some(grown), max },
                            None => {
                                return Err(GrepError::ErrRegex);
                            },
                        },
                        None => RegexRep::Range { min: Some(1), max },
                    },
                    RegexRep::Any => RegexRep::Any,
                };
                set_last_rep(&mut steps, rep);
                None
            } else if c == '?' {
                if !set_last_rep(&mut steps, RegexRep::Range { min: Some(0), max: Some(1) }) {
                    return Err(GrepError::ErrRegex);
                }
                None
            } else if c == '{' {
                match BracketExpression::read_bracket_expression_c(&mut chars_iter, &mut steps) {
                    Ok(()) => {},
                    Err(e) => {
                        return Err(e);
                    },
                }
                None
            } else if c == '[' {
                if chars_iter.peek(0) == Some('[') && chars_iter.peek(1) == Some(':') {
                    match CharacterClass::read_character_class(&mut chars_iter) {
                        Ok(class_content) => Some(
                            RegexStep { rep: RegexRep::Exact(1), val: class_content },
                        ),
                        Err(e) => {
                            return Err(e);
                        },
                    }
                } else {
                    match BracketExpression::read_bracket_expression(&mut chars_iter) {
                        Ok(bracket_content) => Some(
                            RegexStep { rep: RegexRep::Exact(1), val: bracket_content },
                        ),
                        Err(e) => {
                            return Err(e);
                        },
                    }
                }
            } else if c == '\\' {
                match chars_iter.next() {
                    Some(special_char) => Some(
                        RegexStep {
                            rep: RegexRep::Exact(1),
                            val: RegexValue::Literal(special_char),
                        },
                    ),
                    None => {
                        return Err(GrepError::ErrRegex);
                    },
                }
            } else {
                return Err(GrepError::ErrRegex);
            };
            if let Some(p) = step {
                let ghost before = steps;
                let ghost added = p;
                steps.push(p);
                proof {
                    lemma_deep_view_push(before, steps, added);
                }
            }
        }
        Ok(Regex { steps, anchoring })
    }

    /// Compiles a text of alternatives, separated by `|`, into one pattern
    /// for each that is not empty. It fails, with `ErrRegex`, exactly where
    /// one of them is malformed.
    pub fn crear_regex(regular_expression: &str) -> (regex_vec: Result<Vec<Regex>, GrepError>)
        ensures
            match regex_vec {
                Ok(v) => compile_alternatives(regular_expression@) == Some(v.deep_view()),
                Err(e) => e == GrepError::ErrRegex && compile_alternatives(regular_expression@)
                    is None,
            },
    {
        let chars = chars_of(regular_expression);
        let mut regex_vec: Vec<Regex> = Vec::new();
        let mut subexpression: Vec<char> = Vec::new();
        let mut i: usize = 0;
        let ghost mut from: int = 0;
        proof {
            assert(regex_vec.deep_view() =~= Seq::<RegexView>::empty());
            assert(chars@.skip(0) =~= chars@);
            lemma_joined_empty(compile_alternatives(chars@));
        }
        loop
            invariant
                chars@ == regular_expression@,
                0 <= from <= i <= chars.len(),
                subexpression@ == chars@.subrange(from, i as int),
                forall|j: int| from <= j < i ==> chars@[j] != '|',
                compile_alternatives(chars@) == joined(
                    Some(regex_vec.deep_view()),
                    compile_alternatives(chars@.skip(from)),
                ),
            decreases chars.len() - i,
        {
            let ghost rest = chars@.skip(from);
            let ghost done = regex_vec.deep_view();
            let ended = i == chars.len();
            proof {
                rest.index_of_first_ensures('|');
                if ended {
                    assert(rest =~= subexpression@);
                    assert(rest.index_of_first('|') is None);
                } else if chars@[i as int] == '|' {
                    assert(rest[i - from] == '|');
                    assert(rest.contains('|'));
                    assert(rest.index_of_first('|') == Some(i - from));
                    assert(rest.take(i - from) =~= subexpression@);
                    assert(rest.skip(i - from + 1) =~= chars@.skip(i + 1));
                }
            }
            if ended || chars[i] == '|' {
                if subexpression.len() > 0 {
                    let ghost held = regex_vec;
                    match Regex::compile_chars(CharCursor::from_chars(subexpression)) {
                        Ok(regex) => {
                            let ghost added = regex;
                            regex_vec.push(regex);
                            proof {
                                lemma_deep_view_push(held, regex_vec, added);
                            }
                        },
                        Err(e) => {
                            return Err(e);
                        },
                    }
                }
                if ended {
                    proof {
                        assert(regex_vec.deep_view() + Seq::<RegexView>::empty()
                            =~= regex_vec.deep_view());
                    }
                    return Ok(regex_vec);
                }
                subexpression = Vec::new();
                proof {
                    from = i + 1;
                    let tail = compile_alternatives(chars@.skip(i + 1));
                    lemma_joined_assoc(
                        done,
                        compile_alternative(rest.take(i + 1 - from)),
                        tail,
                    );
                }
            } else {
                subexpression.push(chars[i]);
            }
            i += 1;
            proof {
                assert(subexpression@ =~= chars@.subrange(from, i as int));
            }
        }
    }

    /// One attempt to match the whole pattern, with the cursor starting at
    /// `index` and the history empty.
    fn attempt(&self, value: &str, len: usize, index: usize) -> (matched: bool)
        requires
            value.is_ascii(),
            len == value@.len(),
            index <= len,
        ensures
            matched == attempt_at(value@, self@.anchoring.start, self@.steps, index as int),
    {
        let anchored = self.anchoring.get_anchoring_start();
        let mut local_index: usize = index;
        let mut local_queue = queue_of(&self.steps);
        let mut local_stack: Vec<EvaluatedStep> = Vec::new();
        let ghost goal = attempt_at(value@, anchored, self@.steps, index as int);
        proof {
            assert(local_stack.deep_view() =~= Seq::<EvalView>::empty());
        }
        loop
            invariant
                value.is_ascii(),
                len == value@.len(),
                local_index <= len,
                total_size(local_stack.deep_view()) <= local_index,
                goal == attempt_at(value@, self@.anchoring.start, self@.steps, index as int),
                goal == attempt(
                    value@,
                    anchored,
                    local_index as int,
                    local_queue.deep_view(),
                    local_stack.deep_view(),
                ),
            decreases work_left(value@, local_queue.deep_view(), local_stack.deep_view()),
        {
            let ghost pending = local_queue.deep_view();
            let ghost evaluated = local_stack.deep_view();
            let ghost held = local_stack;
            let ghost start = local_index as int;
            let step = match local_queue.pop_front() {
                Some(step) => step,
                None => {
                    return true;
                },
            };
            let ghost rest = local_queue.deep_view();
            let ghost done = run(step@, value@, anchored, start, rep_limit(step.rep));
            proof {
                assert(step@ == pending[0]);
                assert(rest =~= pending.drop_first());
                lemma_run(step@, value@, anchored, start, rep_limit(step.rep));
            }
            match step.rep {
                RegexRep::Exact(n) => {
                    let (count, end) = consume(&step, value, len, anchored, local_index, Some(n));
                    let match_size = end - local_index;
                    local_index = end;
                    if count == n {
                        let entry = EvaluatedStep { step, match_size, backtrackeable: false };
                        let ghost added = entry;
                        local_stack.push(entry);
                        proof {
                            lemma_deep_view_push(held, local_stack, added);
                            lemma_total_size_push(evaluated, added@);
                            lemma_exact_lowers(value@, pending, evaluated, added@);
                        }
                    } else {
                        proof {
                            lemma_unwound_size(evaluated);
                        }
                        let ghost current = step@;
                        match EvaluatedStep::backtrack(step, &mut local_stack, &mut local_queue) {
                            Some(size) => {
                                local_index -= size;
                                proof {
                                    assert(seq![current] + rest =~= pending);
                                    assert(requeued(evaluated) + seq![current] + rest =~= requeued(
                                        evaluated,
                                    ) + pending);
                                    lemma_backtrack_lowers(value@, pending, evaluated);
                                }
                            },
                            None => {
                                return false;
                            },
                        }
                    }
                },
                RegexRep::Any => {
                    local_index = consume_any(
                        &step,
                        value,
                        len,
                        anchored,
                        local_index,
                        &mut local_stack,
                    );
                    proof {
                        lemma_total_size_append(evaluated, done);
                        lemma_run_lowers(value@, pending, evaluated, done);
                    }
                },
                RegexRep::Range { min, max } => {
                    let (count, end) = consume(&step, value, len, anchored, local_index, max);
                    let match_size = end - local_index;
                    local_index = end;
                    if let Some(min_value) = min {
                        if count < min_value {
                            return false;
                        }
                    }
                    let entry = EvaluatedStep { step, match_size, backtrackeable: true };
                    let ghost added = entry;
                    local_stack.push(entry);
                    proof {
                        lemma_deep_view_push(held, local_stack, added);
                        lemma_total_size_push(evaluated, added@);
                        assert(evaluated + seq![added@] =~= evaluated.push(added@));
                        lemma_run_lowers(value@, pending, evaluated, seq![added@]);
                    }
                },
            }
        }
    }

    /// Whether the pattern holds of `value`. It fails, with `ErrRegex`,
    /// exactly where `value` holds a character outside ASCII.
    pub fn test(&self, value: &str) -> (matched: Result<bool, GrepError>)
        ensures
            matched == test_outcome(self@, value@),
    {
        if !value.is_ascii() {
            return Err(GrepError::ErrRegex);
        }
        if self.anchoring.get_anchoring_end() {
            return Ok(self.anchoring.matches_anchoring(&self.steps, value));
        }
        let len = value.unicode_len();
        let anchored = self.anchoring.get_anchoring_start();
        let mut index: usize = 0;
        loop
            invariant
                value.is_ascii(),
                len == value@.len(),
                index <= len,
                anchored == self@.anchoring.start,
                anchored ==> index == 0,
                !self@.anchoring.end,
                forall|offset: int|
                    0 <= offset < index ==> !#[trigger] attempt_at(
                        value@,
                        anchored,
                        self@.steps,
                        offset,
                    ),
            decreases len - index,
        {
            if self.attempt(value, len, index) {
                return Ok(true);
            }
            if anchored || index == len {
                return Ok(false);
            }
            index += 1;
        }
    }
}

} // verus!
