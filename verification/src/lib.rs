//! Core of an activity-monitoring daemon: a shared event vocabulary with a
//! lossless text encoding, a deduplicating foreground-application tracker, a
//! file-save notification filter, and a model of the loop that merges the two
//! event streams into one.

use vstd::prelude::*;

pub mod codec;
pub mod filesave;
pub mod focus;
pub mod merge;

verus! {

/// A semantic activity event, the shared vocabulary of all sources.
#[derive(Debug, Clone, PartialEq, Eq)]
pub enum WorkEvent {
    /// The foreground application changed.
    AppFocused { name: String, pid: u32 },
    /// A watched file was modified (saved).
    FileSaved { path: String },
}

/// The mathematical model of a `WorkEvent`: strings as character sequences.
pub enum EventModel {
    AppFocused { name: Seq<char>, pid: u32 },
    FileSaved { path: Seq<char> },
}

impl View for WorkEvent {
    type V = EventModel;

    open spec fn view(&self) -> EventModel {
        match self {
            WorkEvent::AppFocused { name, pid } => EventModel::AppFocused {
                name: name@,
                pid: *pid,
            },
            WorkEvent::FileSaved { path } => EventModel::FileSaved { path: path@ },
        }
    }
}

impl DeepView for WorkEvent {
    type V = EventModel;

    open spec fn deep_view(&self) -> EventModel {
        self.view()
    }
}

} // verus!
