//! The course of an install command: install, and if the paths are owned,
//! ask, remove the owners and install once more. The caller performs each
//! action and reports what happened; what follows is decided here.

use vstd::prelude::*;
use crate::report::{removal_prompt, removal_prompt_of, Failure};

verus! {

/// Where the command stands.
#[derive(Debug, Clone, PartialEq, Eq)]
pub enum Stage {
    /// The first install is under way.
    Installing,
    /// The user is asked whether these owners may be removed.
    Asking(Vec<String>),
    /// The owners are being removed.
    Removing,
    /// The second install is under way.
    Retrying,
    /// The command has ended.
    Done,
}

/// What the caller reports.
#[derive(Debug, Clone, PartialEq, Eq)]
pub enum Event {
    /// The install went through, whether or not it copied anything.
    Installed,
    /// The install stopped because these packages own paths that it needs.
    Conflict(Vec<String>),
    /// The user's answer; `None` if none was given.
    Answered(Option<bool>),
    /// The owners were removed.
    Removed,
}

/// What the caller is to do next.
#[derive(Debug, Clone, PartialEq, Eq)]
pub enum Action {
    /// Run the install.
    Install,
    /// Put this question to the user.
    Ask(String),
    /// Remove these packages.
    Remove(Vec<String>),
    /// End the command: with success, or with this failure.
    Exit(Option<Failure>),
}

/// What follows an event.
///
/// A conflict at the first install leads to the question; only a plain yes
/// leads on to the removal and the second install, anything else ends the
/// command as a conflict. A conflict at the second install is not asked
/// about again: it ends the command as fatal, and so does an event that
/// does not belong to the stage.
pub fn step(stage: Stage, event: Event) -> (next: (Stage, Action))
    ensures
        match (stage, event) {
            (Stage::Installing, Event::Installed) => next.0 is Done && next.1 == Action::Exit(
                None,
            ),
            (Stage::Installing, Event::Conflict(owners)) => {
                &&& next.0 == Stage::Asking(owners)
                &&& next.1 matches Action::Ask(prompt)
                &&& prompt@ == removal_prompt_of(owners.deep_view())
            },
            (Stage::Asking(owners), Event::Answered(Some(true))) => next.0 is Removing && next.1
                == Action::Remove(owners),
            (Stage::Asking(_), Event::Answered(_)) => next.0 is Done && next.1 == Action::Exit(
                Some(Failure::Conflict),
            ),
            (Stage::Removing, Event::Removed) => next.0 is Retrying && next.1 is Install,
            (Stage::Retrying, Event::Installed) => next.0 is Done && next.1 == Action::Exit(None),
            _ => next.0 is Done && next.1 == Action::Exit(Some(Failure::Fatal)),
        },
{
    match (stage, event) {
        (Stage::Installing, Event::Installed) => (Stage::Done, Action::Exit(None)),
        (Stage::Installing, Event::Conflict(owners)) => {
            let prompt = removal_prompt(&owners);
            (Stage::Asking(owners), Action::Ask(prompt))
        },
        (Stage::Asking(owners), Event::Answered(Some(true))) => (
            Stage::Removing,
            Action::Remove(owners),
        ),
        (Stage::Asking(_), Event::Answered(_)) => (
            Stage::Done,
            Action::Exit(Some(Failure::Conflict)),
        ),
        (Stage::Removing, Event::Removed) => (Stage::Retrying, Action::Install),
        (Stage::Retrying, Event::Installed) => (Stage::Done, Action::Exit(None)),
        _ => (Stage::Done, Action::Exit(Some(Failure::Fatal))),
    }
}

} // verus!
