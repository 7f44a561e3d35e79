//! What it means for a compiled pattern to hold of a subject: the
//! backtracking search, step by step, as a mathematical function, with the
//! bound on its work that makes it terminate.

use vstd::prelude::*;
use vstd::utf8::is_ascii_chars;
use crate::anchoring::anchoring_accepts;
use crate::evaluated_step::{
    kept, last_backtrackable, lemma_last_backtrackable, lemma_total_size_split, requeued,
    total_size, unwound, EvalView,
};
use crate::grep_error::GrepError;
use crate::pattern::RegexView;
use crate::regex_rep::RegexRep;
use crate::regex_step::StepView;
use crate::regex_value::ValueView;

verus! {

/// How far one comparison of `val` advances a cursor that stands at
/// `cursor` in `text`; zero where it fails.
///
/// A comparison made at the very start of the subject, for a pattern that
/// is not tied to the start, scans: the value may occur anywhere in the
/// subject, and the cursor goes just past its first occurrence. Every other
/// comparison is exact: the value has to occur at the cursor.
pub open spec fn advance(val: ValueView, text: Seq<char>, anchored: bool, cursor: int) -> nat {
    if cursor == 0 && !anchored {
        val.scan(text.skip(cursor))
    } else {
        val.exact(text.skip(cursor))
    }
}

/// A limit less one use; no limit stays none.
pub open spec fn one_less(limit: Option<nat>) -> Option<nat> {
    match limit {
        Some(l) => Some((l - 1) as nat),
        None => None,
    }
}

/// One repetition of `step` that consumed `size`, as a backtrackable entry.
pub open spec fn repetition(step: StepView, size: nat) -> EvalView {
    EvalView { step, match_size: size, backtrackeable: true }
}

/// The greedy run of `step` from `cursor`: one entry for each consecutive
/// successful comparison, in order, up to `limit` of them where there is a
/// limit. The run ends at the first comparison that fails.
///
/// It is defined for an ASCII subject and a cursor inside it, where every
/// successful comparison moves the cursor on by at least one character and
/// never past the end.
pub open spec fn run(
    step: StepView,
    text: Seq<char>,
    anchored: bool,
    cursor: int,
    limit: Option<nat>,
) -> Seq<EvalView>
    decreases text.len() - cursor,
    when is_ascii_chars(text) && 0 <= cursor <= text.len()
    via run_decreases
{
    let size = advance(step.val, text, anchored, cursor);
    if limit == Some(0nat) || size == 0 {
        Seq::empty()
    } else {
        seq![repetition(step, size)] + run(step, text, anchored, cursor + size, one_less(limit))
    }
}

#[via_fn]
proof fn run_decreases(
    step: StepView,
    text: Seq<char>,
    anchored: bool,
    cursor: int,
    limit: Option<nat>,
) {
    lemma_advance_bounds(step.val, text, anchored, cursor);
}

/// On an ASCII subject a comparison stays inside the subject.
pub proof fn lemma_advance_bounds(val: ValueView, text: Seq<char>, anchored: bool, cursor: int)
    requires
        is_ascii_chars(text),
        0 <= cursor <= text.len(),
    ensures
        cursor + advance(val, text, anchored, cursor) <= text.len(),
{
    val.lemma_ascii_bounds(text.skip(cursor));
}

/// A greedy run stays inside the subject, each of its entries is a
/// backtrackable repetition of the step that consumed something, and it
/// keeps to its limit.
pub proof fn lemma_run(
    step: StepView,
    text: Seq<char>,
    anchored: bool,
    cursor: int,
    limit: Option<nat>,
)
    requires
        is_ascii_chars(text),
        0 <= cursor <= text.len(),
    ensures
        cursor + total_size(run(step, text, anchored, cursor, limit)) <= text.len(),
        run(step, text, anchored, cursor, limit).len() <= total_size(
            run(step, text, anchored, cursor, limit),
        ),
        limit matches Some(l) ==> run(step, text, anchored, cursor, limit).len() <= l,
        forall|j: int|
            0 <= j < run(step, text, anchored, cursor, limit).len() ==> {
                let entry = #[trigger] run(step, text, anchored, cursor, limit)[j];
                entry.backtrackeable && entry.step == step && entry.match_size > 0
            },
    decreases text.len() - cursor,
{
    let size = advance(step.val, text, anchored, cursor);
    lemma_advance_bounds(step.val, text, anchored, cursor);
    let whole = run(step, text, anchored, cursor, limit);
    if limit == Some(0nat) || size == 0 {
        assert(total_size(whole) == 0);
    } else {
        let tail = run(step, text, anchored, cursor + size, one_less(limit));
        lemma_run(step, text, anchored, cursor + size, one_less(limit));
        assert(whole.drop_first() =~= tail);
        assert(total_size(whole) == size + total_size(tail));
        assert forall|j: int| 0 <= j < whole.len() implies {
            let entry = #[trigger] whole[j];
            entry.backtrackeable && entry.step == step && entry.match_size > 0
        } by {
            if j > 0 {
                assert(whole[j] == tail[j - 1]);
            }
        }
    }
}

/// `base` to the power of `pending`.
pub open spec fn weight(base: nat, pending: nat) -> nat
    decreases pending,
{
    if pending == 0 {
        1
    } else {
        base * weight(base, (pending - 1) as nat)
    }
}

/// What the backtrackable entries of a history may still cost: each one
/// weighs as much as the queue would after a backtrack into it, which is
/// the present queue and the steps of the entries above it.
pub open spec fn debt(evaluated: Seq<EvalView>, pending: nat, base: nat) -> nat
    decreases evaluated.len(),
{
    if evaluated.len() == 0 {
        0
    } else if evaluated.last().backtrackeable {
        weight(base, pending) + debt(evaluated.drop_last(), pending, base)
    } else {
        debt(evaluated.drop_last(), pending + 1, base)
    }
}

/// A bound on the work that an attempt has left, which every move of the
/// attempt lowers: the weight of the queue and the debt of the history, to
/// a base that exceeds any number of entries that one step can add.
pub open spec fn work_left(
    text: Seq<char>,
    pending: Seq<StepView>,
    evaluated: Seq<EvalView>,
) -> nat {
    weight(text.len() + 3, pending.len()) + debt(evaluated, pending.len(), text.len() + 3)
}

/// A weight is at least one, and no weight is less than that of a shorter
/// queue.
pub proof fn lemma_weight_grows(base: nat, low: nat, high: nat)
    requires
        base >= 1,
        low <= high,
    ensures
        1 <= weight(base, low) <= weight(base, high),
    decreases high,
{
    if high > 0 {
        let below = (high - 1) as nat;
        lemma_weight_grows(base, if low == high {
            below
        } else {
            low
        }, below);
        assert(weight(base, high) >= weight(base, below)) by (nonlinear_arith)
            requires
                weight(base, high) == base * weight(base, below),
                base >= 1,
                weight(base, below) >= 1,
        ;
    }
}

/// No debt is less than that of the same history with a shorter queue.
pub proof fn lemma_debt_grows(evaluated: Seq<EvalView>, low: nat, high: nat, base: nat)
    requires
        base >= 1,
        low <= high,
    ensures
        debt(evaluated, low, base) <= debt(evaluated, high, base),
    decreases evaluated.len(),
{
    if evaluated.len() > 0 {
        if evaluated.last().backtrackeable {
            lemma_weight_grows(base, low, high);
            lemma_debt_grows(evaluated.drop_last(), low, high, base);
        } else {
            lemma_debt_grows(evaluated.drop_last(), low + 1, high + 1, base);
        }
    }
}

/// The debt of a history with one more entry on top.
pub proof fn lemma_debt_push(evaluated: Seq<EvalView>, entry: EvalView, pending: nat, base: nat)
    ensures
        debt(evaluated.push(entry), pending, base) == if entry.backtrackeable {
            weight(base, pending) + debt(evaluated, pending, base)
        } else {
            debt(evaluated, pending + 1, base)
        },
{
    assert(evaluated.push(entry).drop_last() =~= evaluated);
}

/// The debt of a history with a run of backtrackable entries on top.
pub proof fn lemma_debt_run(
    evaluated: Seq<EvalView>,
    done: Seq<EvalView>,
    pending: nat,
    base: nat,
)
    requires
        forall|j: int| 0 <= j < done.len() ==> (#[trigger] done[j]).backtrackeable,
    ensures
        debt(evaluated + done, pending, base) == done.len() * weight(base, pending) + debt(
            evaluated,
            pending,
            base,
        ),
    decreases done.len(),
{
    if done.len() == 0 {
        assert(evaluated + done =~= evaluated);
    } else {
        let fewer = done.drop_last();
        assert(evaluated + done =~= (evaluated + fewer).push(done.last()));
        lemma_debt_push(evaluated + fewer, done.last(), pending, base);
        lemma_debt_run(evaluated, fewer, pending, base);
        assert(done.len() * weight(base, pending) == fewer.len() * weight(base, pending) + weight(
            base,
            pending,
        )) by (nonlinear_arith)
            requires
                done.len() == fewer.len() + 1,
        ;
    }
}

/// The debt of a history in which a backtrack finds an entry: that entry's
/// weight, and the debt of what the backtrack keeps, both for the queue
/// that the backtrack leaves.
pub proof fn lemma_debt_unwind(evaluated: Seq<EvalView>, pending: nat, base: nat)
    requires
        last_backtrackable(evaluated) >= 0,
    ensures
        debt(evaluated, pending, base) == weight(base, pending + requeued(evaluated).len()) + debt(
            kept(evaluated),
            pending + requeued(evaluated).len(),
            base,
        ),
    decreases evaluated.len(),
{
    lemma_last_backtrackable(evaluated);
    let cut = last_backtrackable(evaluated);
    if evaluated.last().backtrackeable {
        assert(evaluated.skip(cut + 1) =~= Seq::<EvalView>::empty());
        assert(evaluated.take(cut) =~= evaluated.drop_last());
    } else {
        let below = evaluated.drop_last();
        lemma_debt_unwind(below, pending + 1, base);
        lemma_last_backtrackable(below);
        assert(below.take(cut) =~= evaluated.take(cut));
        assert(requeued(evaluated).len() == requeued(below).len() + 1);
    }
}

/// A backtrack never returns more than the history consumed, and what it
/// keeps consumed the rest.
pub proof fn lemma_unwound_size(evaluated: Seq<EvalView>)
    ensures
        total_size(kept(evaluated)) + total_size(unwound(evaluated)) == total_size(evaluated),
{
    lemma_last_backtrackable(evaluated);
    let cut = last_backtrackable(evaluated);
    if cut >= 0 {
        lemma_total_size_split(evaluated, cut);
    }
}

/// Putting a step that matched its exact count on the history lowers the
/// work left.
pub proof fn lemma_exact_lowers(
    text: Seq<char>,
    pending: Seq<StepView>,
    evaluated: Seq<EvalView>,
    entry: EvalView,
)
    requires
        pending.len() > 0,
        !entry.backtrackeable,
    ensures
        work_left(text, pending.drop_first(), evaluated.push(entry)) < work_left(
            text,
            pending,
            evaluated,
        ),
{
    let base = text.len() + 3;
    let fewer = (pending.len() - 1) as nat;
    lemma_debt_push(evaluated, entry, fewer, base);
    lemma_weight_grows(base, fewer, fewer);
    assert(weight(base, fewer) < weight(base, pending.len())) by (nonlinear_arith)
        requires
            weight(base, pending.len()) == base * weight(base, fewer),
            base >= 3,
            weight(base, fewer) >= 1,
    ;
}

/// Putting a run of backtrackable entries on the history lowers the work
/// left, where the run is no longer than the subject and one.
pub proof fn lemma_run_lowers(
    text: Seq<char>,
    pending: Seq<StepView>,
    evaluated: Seq<EvalView>,
    done: Seq<EvalView>,
)
    requires
        pending.len() > 0,
        done.len() <= text.len() + 1,
        forall|j: int| 0 <= j < done.len() ==> (#[trigger] done[j]).backtrackeable,
    ensures
        work_left(text, pending.drop_first(), evaluated + done) < work_left(
            text,
            pending,
            evaluated,
        ),
{
    let base = text.len() + 3;
    let fewer = (pending.len() - 1) as nat;
    lemma_debt_run(evaluated, done, fewer, base);
    lemma_debt_grows(evaluated, fewer, pending.len(), base);
    lemma_weight_grows(base, fewer, fewer);
    assert(weight(base, fewer) + done.len() * weight(base, fewer) < weight(base, pending.len()))
        by (nonlinear_arith)
        requires
            weight(base, pending.len()) == base * weight(base, fewer),
            done.len() + 1 < base,
            weight(base, fewer) >= 1,
    ;
}

/// A backtrack that finds an entry lowers the work left.
pub proof fn lemma_backtrack_lowers(
    text: Seq<char>,
    pending: Seq<StepView>,
    evaluated: Seq<EvalView>,
)
    requires
        pending.len() > 0,
        last_backtrackable(evaluated) >= 0,
    ensures
        work_left(text, requeued(evaluated) + pending, kept(evaluated)) < work_left(
            text,
            pending,
            evaluated,
        ),
{
    let base = text.len() + 3;
    lemma_debt_unwind(evaluated, pending.len(), base);
    lemma_weight_grows(base, pending.len(), pending.len());
}

/// The greatest number of repetitions that a repetition allows, where it
/// sets one.
pub open spec fn rep_limit(rep: RegexRep) -> Option<nat> {
    match rep {
        RegexRep::Exact(n) => Some(n as nat),
        RegexRep::Any => None,
        RegexRep::Range { min, max } => match max {
            Some(most) => Some(most as nat),
            None => None,
        },
    }
}

/// Whether an attempt succeeds that stands at `cursor` with the steps
/// `pending` still to match, front first, and the history `evaluated`,
/// latest entry last.
///
/// With nothing pending it has succeeded. Else the front step makes its
/// greedy run from the cursor.
/// - A step with an exact count that reaches it goes on the history as one
///   entry that is not backtrackable. One that falls short leaves the cursor
///   where its run ended and backtracks: the attempt fails where the history
///   holds no backtrackable entry, and else resumes with the cursor set back
///   by what the unwound entries had consumed.
/// - A zero-or-more step puts each repetition on the history as a
///   backtrackable entry of its own.
/// - A range step fails the attempt where its run falls short of the least
///   count, and else goes on the history as one backtrackable entry.
///
/// It is defined for an ASCII subject and a cursor inside it. Each move
/// lowers `work_left`, so the attempt comes to an end.
pub open spec fn attempt(
    text: Seq<char>,
    anchored: bool,
    cursor: int,
    pending: Seq<StepView>,
    evaluated: Seq<EvalView>,
) -> bool
    decreases work_left(text, pending, evaluated),
    when is_ascii_chars(text) && 0 <= cursor <= text.len()
    via attempt_decreases
{
    if pending.len() == 0 {
        true
    } else {
        let step = pending[0];
        let rest = pending.drop_first();
        let done = run(step, text, anchored, cursor, rep_limit(step.rep));
        let end = cursor + total_size(done);
        match step.rep {
            RegexRep::Exact(n) => {
                if done.len() == n {
                    attempt(
                        text,
                        anchored,
                        end,
                        rest,
                        evaluated.push(
                            EvalView { step, match_size: total_size(done), backtrackeable: false },
                        ),
                    )
                } else if last_backtrackable(evaluated) < 0 {
                    false
                } else {
                    attempt(
                        text,
                        anchored,
                        end - total_size(unwound(evaluated)),
                        requeued(evaluated) + pending,
                        kept(evaluated),
                    )
                }
            },
            RegexRep::Any => attempt(text, anchored, end, rest, evaluated + done),
            RegexRep::Range { min, max } => {
                if min is Some && done.len() < min->0 {
                    false
                } else {
                    attempt(
                        text,
                        anchored,
                        end,
                        rest,
                        evaluated.push(repetition(step, total_size(done))),
                    )
                }
            },
        }
    }
}

#[via_fn]
proof fn attempt_decreases(
    text: Seq<char>,
    anchored: bool,
    cursor: int,
    pending: Seq<StepView>,
    evaluated: Seq<EvalView>,
) {
    if pending.len() > 0 {
        let step = pending[0];
        let done = run(step, text, anchored, cursor, rep_limit(step.rep));
        lemma_run(step, text, anchored, cursor, rep_limit(step.rep));
        match step.rep {
            RegexRep::Exact(n) => {
                lemma_exact_lowers(
                    text,
                    pending,
                    evaluated,
                    EvalView { step, match_size: total_size(done), backtrackeable: false },
                );
                if last_backtrackable(evaluated) >= 0 {
                    lemma_backtrack_lowers(text, pending, evaluated);
                }
            },
            RegexRep::Any => {
                lemma_run_lowers(text, pending, evaluated, done);
            },
            RegexRep::Range { min, max } => {
                let entry = repetition(step, total_size(done));
                assert(evaluated + seq![entry] =~= evaluated.push(entry));
                lemma_run_lowers(text, pending, evaluated, seq![entry]);
            },
        }
    }
}

/// Whether an attempt that starts at `offset` with an empty history
/// matches all of `steps`.
pub open spec fn attempt_at(
    text: Seq<char>,
    anchored: bool,
    steps: Seq<StepView>,
    offset: int,
) -> bool {
    attempt(text, anchored, offset, steps, Seq::empty())
}

/// Whether the compiled pattern `regex` holds of the ASCII subject `text`.
///
/// A pattern tied to the end of the subject, whether or not it is tied to
/// the start too, holds as `anchoring_accepts` says. A pattern tied to the
/// start only holds where the attempt at offset zero succeeds. Any other
/// pattern holds where the attempt succeeds at some offset from zero to the
/// length of the subject.
pub open spec fn regex_accepts(regex: RegexView, text: Seq<char>) -> bool {
    if regex.anchoring.end {
        anchoring_accepts(regex.anchoring, regex.steps, text)
    } else if regex.anchoring.start {
        attempt_at(text, true, regex.steps, 0)
    } else {
        exists|offset: int|
            0 <= offset <= text.len() && #[trigger] attempt_at(text, false, regex.steps, offset)
    }
}

/// What testing the subject `value` against the compiled pattern `regex`
/// gives: whether the pattern holds of it, or the error `ErrRegex` where
/// `value` holds a character outside ASCII.
pub open spec fn test_outcome(regex: RegexView, value: Seq<char>) -> Result<bool, GrepError> {
    if is_ascii_chars(value) {
        Ok(regex_accepts(regex, value))
    } else {
        Err(GrepError::ErrRegex)
    }
}

} // verus!
