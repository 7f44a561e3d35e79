//! What a pattern text compiles to, as a mathematical function of the text.

use vstd::prelude::*;
use crate::anchoring::AnchoringView;
use crate::ascii::{is_alnum, lemma_char_is_scalar};
use crate::bracket_expression::{
    after_brace, after_bracket, brace_rep, bracket_body, bracket_class, lemma_counts_end,
    with_last_rep,
};
use crate::regex_clase::{after_named_class, named_class};
use crate::regex_rep::RegexRep;
use crate::regex_step::StepView;
use crate::regex_value::ValueView;

verus! {

/// The mathematical content of a compiled pattern: its steps, in the order
/// in which they are to match, and its anchoring.
pub struct RegexView {
    pub steps: Seq<StepView>,
    pub anchoring: AnchoringView,
}

/// A step that matches `val` once.
pub open spec fn once(val: ValueView) -> StepView {
    StepView { val, rep: RegexRep::Exact(1) }
}

/// What a `+` makes of a repetition: an exact count becomes a least count
/// with no greatest, a least count grows by one, a missing least count
/// becomes one, and zero-or-more stays. `None` where the least count cannot
/// grow within `usize`.
pub open spec fn plus_rep(rep: RegexRep) -> Option<RegexRep> {
    match rep {
        RegexRep::Exact(n) => Some(RegexRep::Range { min: Some(n), max: None }),
        RegexRep::Range { min: Some(least), max } => if least < usize::MAX {
            Some(RegexRep::Range { min: Some((least + 1) as usize), max })
        } else {
            None
        },
        RegexRep::Range { min: None, max } => Some(RegexRep::Range { min: Some(1), max }),
        RegexRep::Any => Some(RegexRep::Any),
    }
}

/// Whether what follows an opening `[` announces a named class.
pub open spec fn opens_named_class(rest: Seq<char>) -> bool {
    rest.len() >= 2 && rest[0] == '[' && rest[1] == ':'
}

/// The pattern that the compiler makes of `input` when it has made `steps`
/// and `anchoring` of what came before; `None` where `input` is malformed.
///
/// One character decides each move:
/// - a letter, a digit or a blank adds a step for that literal, and `.` one
///   for the wildcard;
/// - `*`, `+`, `?` and `{...}` replace the repetition of the last step, and
///   are malformed where there is none;
/// - `^` ties the pattern to the start and is malformed after any step; `$`
///   ties it to the end and is malformed before the end of the pattern;
/// - `[` adds a step for a class, named where `[:` follows and listed
///   otherwise;
/// - `\` adds a step for the character behind it, taken literally, and is
///   malformed at the end of the pattern;
/// - anything else is malformed.
pub open spec fn compile_from(
    input: Seq<char>,
    steps: Seq<StepView>,
    anchoring: AnchoringView,
) -> Option<RegexView>
    decreases input.len(),
    via compile_from_decreases
{
    if input.len() == 0 {
        Some(RegexView { steps, anchoring })
    } else {
        let c = input[0];
        let rest = input.drop_first();
        if c == '.' {
            compile_from(rest, steps.push(once(ValueView::Wildcard)), anchoring)
        } else if is_alnum(c) || c == ' ' {
            compile_from(rest, steps.push(once(ValueView::Literal(c))), anchoring)
        } else if c == '*' {
            if steps.len() == 0 {
                None
            } else {
                compile_from(rest, with_last_rep(steps, RegexRep::Any), anchoring)
            }
        } else if c == '^' {
            if steps.len() == 0 {
                compile_from(rest, steps, AnchoringView { start: true, end: anchoring.end })
            } else {
                None
            }
        } else if c == '$' {
            if rest.len() == 0 {
                compile_from(rest, steps, AnchoringView { start: anchoring.start, end: true })
            } else {
                None
            }
        } else if c == '+' {
            if steps.len() == 0 {
                None
            } else {
                match plus_rep(steps.last().rep) {
                    Some(rep) => compile_from(rest, with_last_rep(steps, rep), anchoring),
                    None => None,
                }
            }
        } else if c == '?' {
            if steps.len() == 0 {
                None
            } else {
                compile_from(
                    rest,
                    with_last_rep(steps, RegexRep::Range { min: Some(0), max: Some(1) }),
                    anchoring,
                )
            }
        } else if c == '{' {
            match brace_rep(rest) {
                Some(rep) => if steps.len() == 0 {
                    None
                } else {
                    compile_from(after_brace(rest), with_last_rep(steps, rep), anchoring)
                },
                None => None,
            }
        } else if c == '[' {
            if opens_named_class(rest) {
                match named_class(rest) {
                    Some(clase) => compile_from(
                        after_named_class(rest),
                        steps.push(once(ValueView::Clase(clase))),
                        anchoring,
                    ),
                    None => None,
                }
            } else {
                match bracket_class(rest) {
                    Some(clase) => compile_from(
                        after_bracket(rest),
                        steps.push(once(ValueView::Clase(clase))),
                        anchoring,
                    ),
                    None => None,
                }
            }
        } else if c == '\\' {
            if rest.len() == 0 {
                None
            } else {
                compile_from(
                    rest.drop_first(),
                    steps.push(once(ValueView::Literal(rest[0]))),
                    anchoring,
                )
            }
        } else {
            None
        }
    }
}

#[via_fn]
proof fn compile_from_decreases(input: Seq<char>, steps: Seq<StepView>, anchoring: AnchoringView) {
    if input.len() > 0 {
        let rest = input.drop_first();
        lemma_counts_end(rest, 0);
        rest.index_of_first_ensures(']');
        bracket_body(rest).index_of_first_ensures(']');
    }
}

/// The pattern that the text `pattern` compiles to; `None` where it is
/// malformed.
pub open spec fn compile(pattern: Seq<char>) -> Option<RegexView> {
    compile_from(pattern, Seq::empty(), AnchoringView { start: false, end: false })
}

/// Joins the patterns compiled so far with those of the rest of the text,
/// where both were well formed.
pub open spec fn joined(
    done: Option<Seq<RegexView>>,
    more: Option<Seq<RegexView>>,
) -> Option<Seq<RegexView>> {
    match (done, more) {
        (Some(d), Some(m)) => Some(d + m),
        _ => None,
    }
}

/// What one alternative compiles to: nothing where it is empty, one pattern
/// where it is well formed, and `None` where it is malformed.
pub open spec fn compile_alternative(segment: Seq<char>) -> Option<Seq<RegexView>> {
    if segment.len() == 0 {
        Some(Seq::empty())
    } else {
        match compile(segment) {
            Some(regex) => Some(seq![regex]),
            None => None,
        }
    }
}

/// The patterns that a text of alternatives compiles to: the text is cut at
/// each `|`, before anything else is read in it, and every piece that is
/// not empty is compiled by itself, in order. `None` where a piece is
/// malformed.
pub open spec fn compile_alternatives(pattern: Seq<char>) -> Option<Seq<RegexView>>
    decreases pattern.len(),
    via compile_alternatives_decreases
{
    match pattern.index_of_first('|') {
        Some(bar) => joined(
            compile_alternative(pattern.take(bar)),
            compile_alternatives(pattern.skip(bar + 1)),
        ),
        None => compile_alternative(pattern),
    }
}

#[via_fn]
proof fn compile_alternatives_decreases(pattern: Seq<char>) {
    pattern.index_of_first_ensures('|');
}

/// Whether `after` may come of `before` by compiling more of a pattern:
/// every step of `before` is still in its place, and none has changed but
/// for the repetition of the last.
pub open spec fn grows_from(before: Seq<StepView>, after: Seq<StepView>) -> bool {
    &&& before.len() <= after.len()
    &&& forall|i: int| 0 <= i < before.len() - 1 ==> after[i] == before[i]
    &&& before.len() > 0 ==> after[before.len() - 1].val == before.last().val
}

/// What comes of steps that came of others comes of those too.
pub proof fn lemma_grows_from_twice(
    first: Seq<StepView>,
    second: Seq<StepView>,
    third: Seq<StepView>,
)
    requires
        grows_from(first, second),
        grows_from(second, third),
    ensures
        grows_from(first, third),
{
    assert forall|i: int| 0 <= i < first.len() - 1 implies third[i] == first[i] by {
        assert(second[i] == first[i]);
    }
    if first.len() > 0 {
        let last = first.len() - 1;
        if last < second.len() - 1 {
            assert(third[last] == second[last]);
        }
    }
}

/// Compiling never takes a step away, moves one, or changes one that is
/// followed by another: of the steps made so far, only the repetition of
/// the last can still change.
pub proof fn lemma_compile_grows(input: Seq<char>, steps: Seq<StepView>, anchoring: AnchoringView)
    ensures
        compile_from(input, steps, anchoring) matches Some(regex) ==> grows_from(
            steps,
            regex.steps,
        ),
    decreases input.len(),
{
    if input.len() > 0 && compile_from(input, steps, anchoring) is Some {
        let c = input[0];
        let rest = input.drop_first();
        lemma_char_is_scalar(c);
        lemma_counts_end(rest, 0);
        rest.index_of_first_ensures(']');
        bracket_body(rest).index_of_first_ensures(']');
        let (left, next, tied) = if c == '.' {
            (rest, steps.push(once(ValueView::Wildcard)), anchoring)
        } else if is_alnum(c) || c == ' ' {
            (rest, steps.push(once(ValueView::Literal(c))), anchoring)
        } else if c == '*' {
            (rest, with_last_rep(steps, RegexRep::Any), anchoring)
        } else if c == '^' {
            (rest, steps, AnchoringView { start: true, end: anchoring.end })
        } else if c == '$' {
            (rest, steps, AnchoringView { start: anchoring.start, end: true })
        } else if c == '+' {
            (rest, with_last_rep(steps, plus_rep(steps.last().rep)->0), anchoring)
        } else if c == '?' {
            (
                rest,
                with_last_rep(steps, RegexRep::Range { min: Some(0), max: Some(1) }),
                anchoring,
            )
        } else if c == '{' {
            (after_brace(rest), with_last_rep(steps, brace_rep(rest)->0), anchoring)
        } else if c == '[' {
            if opens_named_class(rest) {
                (
                    after_named_class(rest),
                    steps.push(once(ValueView::Clase(named_class(rest)->0))),
                    anchoring,
                )
            } else {
                (
                    after_bracket(rest),
                    steps.push(once(ValueView::Clase(bracket_class(rest)->0))),
                    anchoring,
                )
            }
        } else {
            lemma_char_is_scalar(rest[0]);
            (rest.drop_first(), steps.push(once(ValueView::Literal(rest[0]))), anchoring)
        };
        assert(compile_from(input, steps, anchoring) == compile_from(left, next, tied));
        assert(grows_from(steps, next));
        lemma_compile_grows(left, next, tied);
        lemma_grows_from_twice(steps, next, compile_from(left, next, tied)->0.steps);
    }
}

/// Joining nothing to a result leaves it.
pub proof fn lemma_joined_empty(more: Option<Seq<RegexView>>)
    ensures
        joined(Some(Seq::empty()), more) == more,
{
    if let Some(m) = more {
        assert(Seq::<RegexView>::empty() + m =~= m);
    }
}

/// Joining in two moves is joining in one.
pub proof fn lemma_joined_assoc(
    done: Seq<RegexView>,
    own: Option<Seq<RegexView>>,
    more: Option<Seq<RegexView>>,
)
    ensures
        joined(Some(done), joined(own, more)) == joined(joined(Some(done), own), more),
{
    if let (Some(o), Some(m)) = (own, more) {
        assert(done + (o + m) =~= (done + o) + m);
    }
}

} // verus!
