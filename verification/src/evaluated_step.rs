//! The history of an attempt: the steps it has evaluated, and the backtrack
//! that unwinds them.

use vstd::prelude::*;
use std::collections::VecDeque;
use crate::regex_step::{RegexStep, StepView};

verus! {

/// The mathematical content of an evaluated step.
pub struct EvalView {
    pub step: StepView,
    pub match_size: nat,
    pub backtrackeable: bool,
}

/// A step that an attempt has evaluated: how much of the subject it
/// consumed, and whether a later failure may take that back and go on
/// without it.
#[derive(Debug)]
pub struct EvaluatedStep {
    pub step: RegexStep,
    pub match_size: usize,
    pub backtrackeable: bool,
}

impl View for EvaluatedStep {
    type V = EvalView;

    open spec fn view(&self) -> EvalView {
        EvalView {
            step: self.step@,
            match_size: self.match_size as nat,
            backtrackeable: self.backtrackeable,
        }
    }
}

impl DeepView for EvaluatedStep {
    type V = EvalView;

    open spec fn deep_view(&self) -> EvalView {
        self@
    }
}

impl Clone for EvaluatedStep {
    fn clone(&self) -> (res: Self)
        ensures
            res@ == self@,
    {
        EvaluatedStep {
            step: self.step.clone(),
            match_size: self.match_size,
            backtrackeable: self.backtrackeable,
        }
    }
}

/// The index of the topmost backtrackable entry of a history whose top is
/// its last element, or `-1` where no entry is backtrackable.
pub open spec fn last_backtrackable(evaluated: Seq<EvalView>) -> int
    decreases evaluated.len(),
{
    if evaluated.len() == 0 {
        -1
    } else if evaluated.last().backtrackeable {
        evaluated.len() - 1
    } else {
        last_backtrackable(evaluated.drop_last())
    }
}

/// The length of subject that the entries consumed together.
pub open spec fn total_size(evaluated: Seq<EvalView>) -> nat
    decreases evaluated.len(),
{
    if evaluated.len() == 0 {
        0
    } else {
        evaluated[0].match_size + total_size(evaluated.drop_first())
    }
}

/// The steps of the entries, in their order.
pub open spec fn steps_of(evaluated: Seq<EvalView>) -> Seq<StepView> {
    evaluated.map_values(|e: EvalView| e.step)
}

/// The entries that a backtrack takes off a history: the topmost
/// backtrackable entry and all above it, or all entries where none is
/// backtrackable.
pub open spec fn unwound(evaluated: Seq<EvalView>) -> Seq<EvalView> {
    let cut = last_backtrackable(evaluated);
    if cut < 0 {
        evaluated
    } else {
        evaluated.skip(cut)
    }
}

/// What a backtrack leaves of a history: the entries below the topmost
/// backtrackable one.
pub open spec fn kept(evaluated: Seq<EvalView>) -> Seq<EvalView> {
    let cut = last_backtrackable(evaluated);
    if cut < 0 {
        Seq::empty()
    } else {
        evaluated.take(cut)
    }
}

/// The steps that a backtrack hands back to the pending queue: those of the
/// entries above the topmost backtrackable one (which is itself dropped), or
/// of all entries where none is backtrackable.
pub open spec fn requeued(evaluated: Seq<EvalView>) -> Seq<StepView> {
    let cut = last_backtrackable(evaluated);
    steps_of(evaluated.skip(cut + 1))
}

/// `last_backtrackable` is the greatest index of a backtrackable entry.
pub proof fn lemma_last_backtrackable(evaluated: Seq<EvalView>)
    ensures
        -1 <= last_backtrackable(evaluated) < evaluated.len(),
        last_backtrackable(evaluated) >= 0 ==> evaluated[last_backtrackable(
            evaluated,
        )].backtrackeable,
        forall|j: int|
            last_backtrackable(evaluated) < j < evaluated.len() ==> !(#[trigger] evaluated[j])
                .backtrackeable,
    decreases evaluated.len(),
{
    if evaluated.len() > 0 && !evaluated.last().backtrackeable {
        let below = evaluated.drop_last();
        lemma_last_backtrackable(below);
        assert forall|j: int|
            last_backtrackable(evaluated) < j < evaluated.len() implies !(#[trigger] evaluated[j])
            .backtrackeable by {
            if j < below.len() {
                assert(evaluated[j] == below[j]);
            }
        }
    }
}

/// The sizes of a history add up over its last entry.
pub proof fn lemma_total_size_push(evaluated: Seq<EvalView>, entry: EvalView)
    ensures
        total_size(evaluated.push(entry)) == total_size(evaluated) + entry.match_size,
    decreases evaluated.len(),
{
    let longer = evaluated.push(entry);
    assert(total_size(longer) == longer[0].match_size + total_size(longer.drop_first()));
    if evaluated.len() == 0 {
        assert(longer.drop_first() =~= Seq::<EvalView>::empty());
        assert(total_size(longer.drop_first()) == 0);
    } else {
        assert(longer.drop_first() =~= evaluated.drop_first().push(entry));
        lemma_total_size_push(evaluated.drop_first(), entry);
    }
}

/// The sizes of two histories add up over their concatenation.
pub proof fn lemma_total_size_append(evaluated: Seq<EvalView>, more: Seq<EvalView>)
    ensures
        total_size(evaluated + more) == total_size(evaluated) + total_size(more),
{
    let both = evaluated + more;
    lemma_total_size_split(both, evaluated.len() as int);
    assert(both.take(evaluated.len() as int) =~= evaluated);
    assert(both.skip(evaluated.len() as int) =~= more);
}

/// The sizes of a history add up over any split of it.
pub proof fn lemma_total_size_split(evaluated: Seq<EvalView>, at: int)
    requires
        0 <= at <= evaluated.len(),
    ensures
        total_size(evaluated) == total_size(evaluated.take(at)) + total_size(evaluated.skip(at)),
    decreases evaluated.len() - at,
{
    if at == evaluated.len() {
        assert(evaluated.take(at) =~= evaluated);
        assert(evaluated.skip(at) =~= Seq::<EvalView>::empty());
    } else {
        lemma_total_size_split(evaluated, at + 1);
        assert(evaluated.take(at + 1) =~= evaluated.take(at).push(evaluated[at]));
        lemma_total_size_push(evaluated.take(at), evaluated[at]);
        assert(evaluated.skip(at).drop_first() =~= evaluated.skip(at + 1));
    }
}

impl EvaluatedStep {
    /// Gives up the step `current`, which failed to match, and unwinds the
    /// history to the latest point at which another choice is left.
    ///
    /// `current` goes back to the front of `next`. Entries are then taken
    /// off the top of `evaluated` down to and including the topmost
    /// backtrackable one. That one is dropped; the steps of those above it
    /// go back to the front of `next`, in their first order. The result is
    /// the length of subject that the removed entries had consumed, which
    /// the caller returns to its cursor. Where no entry is backtrackable
    /// the history is emptied, all its steps go back to `next`, and the
    /// result is `None`.
    pub fn backtrack(
        current: RegexStep,
        evaluated: &mut Vec<EvaluatedStep>,
        next: &mut VecDeque<RegexStep>,
    ) -> (back: Option<usize>)
        requires
            total_size(unwound(old(evaluated).deep_view())) <= usize::MAX,
        ensures
            back is Some <==> last_backtrackable(old(evaluated).deep_view()) >= 0,
            back matches Some(size) ==> size == total_size(unwound(old(evaluated).deep_view())),
            final(evaluated).deep_view() == kept(old(evaluated).deep_view()),
            final(next).deep_view() == requeued(old(evaluated).deep_view()) + seq![current@]
                + old(next).deep_view(),
    {
        let ghost history = evaluated.deep_view();
        let ghost pending = next.deep_view();
        let ghost cut = last_backtrackable(history);
        let mut back_size: usize = 0;
        next.push_front(current);
        proof {
            lemma_last_backtrackable(history);
            assert(history.take(history.len() as int) =~= history);
            assert(steps_of(history.skip(history.len() as int)) =~= Seq::<StepView>::empty());
            assert(next.deep_view() =~= seq![current@] + pending);
        }
        loop
            invariant
                history == old(evaluated).deep_view(),
                pending == old(next).deep_view(),
                cut == last_backtrackable(history),
                -1 <= cut < history.len(),
                cut < evaluated.len() <= history.len(),
                evaluated.deep_view() == history.take(evaluated.len() as int),
                next.deep_view() == steps_of(history.skip(evaluated.len() as int)) + seq![
                    current@,
                ] + pending,
                back_size == total_size(history.skip(evaluated.len() as int)),
                total_size(unwound(history)) <= usize::MAX,
                forall|j: int| cut < j < history.len() ==> !(#[trigger] history[j]).backtrackeable,
                cut >= 0 ==> history[cut].backtrackeable,
            decreases evaluated.len(),
        {
            let ghost before = evaluated.deep_view();
            let ghost queue = next.deep_view();
            let ghost len = evaluated.len() as int;
            match evaluated.pop() {
                Some(e) => {
                    proof {
                        assert(e@ == before[len - 1]);
                        assert(evaluated.deep_view() =~= history.take(len - 1));
                        assert(history.skip(len - 1).drop_first() =~= history.skip(len));
                        let from = if cut < 0 {
                            0
                        } else {
                            cut
                        };
                        lemma_total_size_split(history.skip(from), len - 1 - from);
                        assert(history.skip(from).skip(len - 1 - from) =~= history.skip(len - 1));
                        assert(history.skip(from) == unwound(history));
                        assert(total_size(history.skip(len - 1)) == history[len - 1].match_size
                            + total_size(history.skip(len)));
                    }
                    back_size += e.match_size;
                    if e.backtrackeable {
                        proof {
                            assert(len - 1 == cut);
                        }
                        return Some(back_size);
                    } else {
                        next.push_front(e.step);
                        proof {
                            assert(steps_of(history.skip(len - 1)) =~= seq![e@.step] + steps_of(
                                history.skip(len),
                            ));
                            assert(next.deep_view() =~= seq![e@.step] + queue);
                        }
                    }
                },
                None => {
                    proof {
                        assert(cut < 0);
                        assert(evaluated.deep_view() =~= Seq::<EvalView>::empty());
                        assert(history.skip(0) =~= history);
                    }
                    return None;
                },
            }
        }
    }
}

} // verus!
