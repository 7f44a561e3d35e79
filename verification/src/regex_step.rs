//! Steps: the units of a compiled pattern.

use vstd::prelude::*;
use crate::regex_rep::RegexRep;
use crate::regex_value::{RegexValue, ValueView};

verus! {

/// The mathematical content of a step.
pub struct StepView {
    pub val: ValueView,
    pub rep: RegexRep,
}

/// One unit of a compiled pattern: what to match, and how many times.
#[derive(Debug)]
pub struct RegexStep {
    pub val: RegexValue,
    pub rep: RegexRep,
}

impl View for RegexStep {
    type V = StepView;

    open spec fn view(&self) -> StepView {
        StepView { val: self.val@, rep: self.rep }
    }
}

impl DeepView for RegexStep {
    type V = StepView;

    open spec fn deep_view(&self) -> StepView {
        self@
    }
}

impl Clone for RegexStep {
    fn clone(&self) -> (res: Self)
        ensures
            res@ == self@,
    {
        RegexStep { val: self.val.clone(), rep: self.rep }
    }
}

} // verus!
