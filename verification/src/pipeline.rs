//! What an install pipeline hears back from the step it asked for: the
//! step went through (and whether an abort was requested meanwhile), or it
//! failed with a message.

use vstd::prelude::*;

verus! {

/// The outcome of one pipeline step.
#[derive(Debug)]
pub enum StepEvent {
    Succeeded { cancelled: bool },
    Failed(String),
}

/// The mathematical reading of a [`StepEvent`].
pub enum StepEventView {
    Succeeded { cancelled: bool },
    Failed(Seq<char>),
}

impl StepEvent {
    pub open spec fn view(&self) -> StepEventView {
        match self {
            StepEvent::Succeeded { cancelled } => StepEventView::Succeeded { cancelled: *cancelled },
            StepEvent::Failed(e) => StepEventView::Failed(e@),
        }
    }
}

/// The message of a step stopped on a user abort.
pub open spec fn cancelled_word() -> Seq<char> {
    seq!['c', 'a', 'n', 'c', 'e', 'l', 'l', 'e', 'd']
}

} // verus!
