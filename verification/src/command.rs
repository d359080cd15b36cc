//! Cross-widget commands and their central dispatcher.
//!
//! Leaf widgets do not own the application state; they emit commands. The
//! delegate recognizes exactly two of them — save, and delete-by-identifier
//! — applies them to the state, and passes every other command through to
//! the next handler untouched.

use vstd::prelude::*;

use crate::codec::spec_encode;
use crate::item::{views, TodoItem};
use crate::state::{spec_delete, AppState};

verus! {

/// Mathematical model of a command.
pub ghost enum CommandView {
    Save,
    DeleteById(Seq<char>),
    Other(Seq<char>),
}

/// A named, optionally payloaded message from a widget. `Save` and
/// `DeleteById` are the recognized kinds; `Other` stands for any command of
/// a kind this component does not know, carried by name.
pub enum Command {
    Save,
    DeleteById(String),
    Other(String),
}

impl View for Command {
    type V = CommandView;

    open spec fn view(&self) -> CommandView {
        match self {
            Command::Save => CommandView::Save,
            Command::DeleteById(id) => CommandView::DeleteById(id@),
            Command::Other(name) => CommandView::Other(name@),
        }
    }
}

/// What became of a dispatched command: handled, with the snapshot to
/// persist, or passed through for the next handler in the chain.
pub enum DispatchOutcome {
    Handled(String),
    Forwarded(Command),
}

/// The stateless central dispatcher.
pub struct Delegate;

impl Delegate {
    /// Apply one command to the application state. `Save` persists the
    /// current list and changes nothing; `DeleteById` removes the named
    /// item and persists; anything else is forwarded, never swallowed.
    pub fn command(&self, data: &mut AppState, cmd: Command) -> (r: DispatchOutcome)
        requires
            old(data).wf(),
        ensures
            final(data).wf(),
            match cmd@ {
                CommandView::Save => *final(data) == *old(data) && (r matches
                DispatchOutcome::Handled(s) && s@ == spec_encode(views(old(data).todos@))),
                CommandView::DeleteById(id) => final(data).new_todo == old(data).new_todo && views(
                    final(data).todos@,
                ) == spec_delete(views(old(data).todos@), id) && (r matches
                DispatchOutcome::Handled(s) && s@ == spec_encode(views(final(data).todos@))),
                CommandView::Other(name) => *final(data) == *old(data) && (r matches
                DispatchOutcome::Forwarded(c) && c@ == CommandView::Other(name)),
            },
    {
        match cmd {
            Command::Save => {
                let snapshot = data.save_to_json();
                DispatchOutcome::Handled(snapshot)
            },
            Command::DeleteById(id) => {
                let snapshot = data.delete_todo(id.as_str());
                DispatchOutcome::Handled(snapshot)
            },
            Command::Other(name) => DispatchOutcome::Forwarded(Command::Other(name)),
        }
    }
}

/// The observer attached to each item row: it watches the completion flag
/// across a UI update and synthesizes a save command whenever the flag
/// changed, so that every toggle reaches the persisted file.
pub struct TodoItemController;

impl TodoItemController {
    /// Compare the item before and after a widget update. A save command
    /// comes back exactly when the completion flag changed.
    pub fn update(&self, old_data: &TodoItem, data: &TodoItem) -> (r: Option<Command>)
        ensures
            match r {
                Some(c) => old_data.done != data.done && c@ == CommandView::Save,
                None => old_data.done == data.done,
            },
    {
        if old_data.done != data.done {
            Some(Command::Save)
        } else {
            None
        }
    }
}

impl TodoItem {
    /// The per-row "Delete" button's handler: the command it submits for
    /// the delegate to apply.
    pub fn click_delete(&self) -> (c: Command)
        ensures
            c@ == CommandView::DeleteById(self@.id),
    {
        Command::DeleteById(self.id.clone())
    }
}

} // verus!
