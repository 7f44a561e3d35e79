//! Anchored patterns: whether a pattern is tied to the start or the end of
//! the subject, and the comparison by which a pattern tied to the end is
//! matched.

use vstd::prelude::*;
use crate::char_cursor::chars_of;
use crate::regex_step::{RegexStep, StepView};
use crate::regex_value::{RegexValue, ValueView};

verus! {

/// The mathematical content of an `Anchoring`.
pub struct AnchoringView {
    pub start: bool,
    pub end: bool,
}

/// Whether a pattern is tied to the start of the subject, to its end, to
/// both or to neither.
#[derive(Clone, Copy, Debug)]
pub struct Anchoring {
    anchoring_start: bool,
    anchoring_end: bool,
}

impl View for Anchoring {
    type V = AnchoringView;

    closed spec fn view(&self) -> AnchoringView {
        AnchoringView { start: self.anchoring_start, end: self.anchoring_end }
    }
}

/// What one step adds to the text that an anchored pattern is compared by:
/// a literal its character, a wildcard a dot, a class nothing.
pub open spec fn step_text(step: StepView) -> Seq<char> {
    match step.val {
        ValueView::Literal(c) => seq![c],
        ValueView::Wildcard => seq!['.'],
        ValueView::Clase(_) => Seq::empty(),
    }
}

/// The text that an anchored pattern is compared by: what its steps add, in
/// their order. Repetitions play no part in it.
pub open spec fn steps_text(steps: Seq<StepView>) -> Seq<char>
    decreases steps.len(),
{
    if steps.len() == 0 {
        Seq::empty()
    } else {
        steps_text(steps.drop_last()) + step_text(steps.last())
    }
}

/// Whether an anchored pattern holds of the subject `value`.
///
/// Nothing holds of a pattern without steps, nor without an anchor. Tied
/// to the start only, the first step has to be a literal with which `value`
/// starts, and the rest of `value` has to start with the rest of the
/// pattern's text. Tied to the end only, `value` has to end with the
/// pattern's text. Tied to both, `value` has to start with it and to end
/// with it.
pub open spec fn anchoring_accepts(
    anchoring: AnchoringView,
    steps: Seq<StepView>,
    value: Seq<char>,
) -> bool {
    let pattern = steps_text(steps);
    if steps.len() == 0 {
        false
    } else if anchoring.start && !anchoring.end {
        &&& steps[0].val is Literal
        &&& value.len() > 0
        &&& value[0] == steps[0].val->Literal_0
        &&& pattern.skip(1).is_prefix_of(value.skip(1))
    } else if !anchoring.start && anchoring.end {
        pattern.is_suffix_of(value)
    } else if anchoring.start && anchoring.end {
        pattern.is_prefix_of(value) && pattern.is_suffix_of(value)
    } else {
        false
    }
}

/// The text of a pattern whose first step is a literal begins with that
/// literal.
pub proof fn lemma_steps_text_first(steps: Seq<StepView>)
    requires
        steps.len() > 0,
        steps[0].val is Literal,
    ensures
        steps_text(steps).len() > 0,
        steps_text(steps)[0] == steps[0].val->Literal_0,
    decreases steps.len(),
{
    if steps.len() == 1 {
        assert(steps.drop_last() =~= Seq::<StepView>::empty());
        assert(steps_text(steps.drop_last()) =~= Seq::<char>::empty());
    } else {
        lemma_steps_text_first(steps.drop_last());
    }
}

/// Whether `text` holds `part` at `at`: the characters of `part` from
/// `skip` on, each in its place.
fn holds_at(text: &Vec<char>, part: &Vec<char>, at: usize, skip: usize) -> (holds: bool)
    requires
        skip <= part.len(),
        at + part.len() <= text.len(),
    ensures
        holds == (part@.skip(skip as int) == text@.subrange(at + skip, at + part.len())),
{
    let mut i: usize = skip;
    while i < part.len()
        invariant
            skip <= i <= part.len(),
            at + part.len() <= text.len(),
            forall|j: int| skip <= j < i ==> part@[j] == text@[at + j],
        decreases part.len() - i,
    {
        if part[i] != text[at + i] {
            proof {
                let want = part@.skip(skip as int);
                let have = text@.subrange(at + skip, at + part.len());
                assert(want[i - skip] != have[i - skip]);
            }
            return false;
        }
        i += 1;
    }
    proof {
        assert(part@.skip(skip as int) =~= text@.subrange(at + skip, at + part.len()));
    }
    true
}

impl Default for Anchoring {
    fn default() -> (anchoring: Self)
        ensures
            anchoring@ == (AnchoringView { start: false, end: false }),
    {
        Anchoring::new()
    }
}

impl Anchoring {
    /// An anchoring that ties the pattern to neither end.
    pub fn new() -> (anchoring: Anchoring)
        ensures
            anchoring@ == (AnchoringView { start: false, end: false }),
    {
        Anchoring { anchoring_start: false, anchoring_end: false }
    }

    /// Takes note of an anchor character: `^` ties to the start, `$` ties to
    /// the end, and any other character unties both.
    pub fn update_anchoring(&mut self, current_char: char)
        ensures
            final(self)@ == if current_char == '^' {
                AnchoringView { start: true, end: old(self)@.end }
            } else if current_char == '$' {
                AnchoringView { start: old(self)@.start, end: true }
            } else {
                AnchoringView { start: false, end: false }
            },
    {
        if current_char == '^' {
            self.anchoring_start = true;
        } else if current_char == '$' {
            self.anchoring_end = true;
        } else {
            self.anchoring_start = false;
            self.anchoring_end = false;
        }
    }

    /// Whether the pattern made of `steps`, anchored as `self` says, holds
    /// of `value`.
    pub fn matches_anchoring(&self, steps: &[RegexStep], value: &str) -> (matched: bool)
        ensures
            matched == anchoring_accepts(self@, steps.deep_view(), value@),
    {
        if steps.len() == 0 {
            return false;
        }
        if !self.anchoring_start && !self.anchoring_end {
            return false;
        }
        let pattern = Self::steps_to_string(steps);
        let text = chars_of(value);
        if pattern.len() > text.len() {
            proof {
                if steps.deep_view()[0].val is Literal {
                    lemma_steps_text_first(steps.deep_view());
                }
            }
            return false;
        }
        let starts = if self.anchoring_end {
            holds_at(&text, &pattern, 0, 0)
        } else {
            match &steps[0].val {
                RegexValue::Literal(first_char) => {
                    proof {
                        lemma_steps_text_first(steps.deep_view());
                    }
                    text.len() > 0 && text[0] == *first_char && holds_at(&text, &pattern, 0, 1)
                },
                _ => false,
            }
        };
        let ends = if self.anchoring_end {
            holds_at(&text, &pattern, text.len() - pattern.len(), 0)
        } else {
            true
        };
        proof {
            assert(pattern@.skip(0) =~= pattern@);
            if pattern@.len() > 0 {
                assert(text@.skip(1).subrange(0, pattern@.len() - 1) =~= text@.subrange(
                    1,
                    pattern@.len() as int,
                ));
            }
        }
        if self.anchoring_start && self.anchoring_end {
            starts && ends
        } else if self.anchoring_start {
            starts
        } else {
            ends
        }
    }

    /// The text that an anchored pattern made of `steps` is compared by.
    fn steps_to_string(steps: &[RegexStep]) -> (text: Vec<char>)
        ensures
            text@ == steps_text(steps.deep_view()),
    {
        let mut text: Vec<char> = Vec::new();
        let mut i: usize = 0;
        while i < steps.len()
            invariant
                i <= steps.len(),
                text@ == steps_text(steps.deep_view().take(i as int)),
            decreases steps.len() - i,
        {
            proof {
                let upto = steps.deep_view().take(i + 1);
                assert(upto.drop_last() =~= steps.deep_view().take(i as int));
                assert(upto.last() == steps[i as int]@);
            }
            match &steps[i].val {
                RegexValue::Literal(c) => {
                    text.push(*c);
                },
                RegexValue::Wildcard => {
                    text.push('.');
                },
                RegexValue::Clase(_) => {},
            }
            proof {
                let upto = steps.deep_view().take(i + 1);
                assert(text@ =~= steps_text(upto.drop_last()) + step_text(upto.last()));
            }
            i += 1;
        }
        proof {
            assert(steps.deep_view().take(i as int) =~= steps.deep_view());
        }
        text
    }

    /// Whether the pattern is tied to the end of the subject.
    pub fn get_anchoring_end(&self) -> (end: bool)
        ensures
            end == self@.end,
    {
        self.anchoring_end
    }

    /// Whether the pattern is tied to the start of the subject.
    pub fn get_anchoring_start(&self) -> (start: bool)
        ensures
            start == self@.start,
    {
        self.anchoring_start
    }
}

} // verus!
