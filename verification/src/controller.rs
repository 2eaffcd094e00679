//! The commands that the control thread hands to the audio thread.
use vstd::prelude::*;
use crate::pattern::{NamedPattern, NamedPatternView};

verus! {

/// What the control thread asks of the coordinator.
#[derive(Clone, Debug, PartialEq, Eq)]
pub enum Command {
    PatternStart(NamedPattern),
    PatternStop(String),
    PatternStopAll,
    PatternClear(String),
    PatternClearAll,
}

/// A command as a mathematical value.
pub enum CommandView {
    PatternStart(NamedPatternView),
    PatternStop(Seq<char>),
    PatternStopAll,
    PatternClear(Seq<char>),
    PatternClearAll,
}

impl DeepView for Command {
    type V = CommandView;

    open spec fn deep_view(&self) -> CommandView {
        match *self {
            Command::PatternStart(np) => CommandView::PatternStart(np.deep_view()),
            Command::PatternStop(name) => CommandView::PatternStop(name@),
            Command::PatternStopAll => CommandView::PatternStopAll,
            Command::PatternClear(name) => CommandView::PatternClear(name@),
            Command::PatternClearAll => CommandView::PatternClearAll,
        }
    }
}

} // verus!
