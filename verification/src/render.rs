//! How changes and actions are shown.

use crate::action::{Action, ActionView};
use crate::change::{Change, ChangeView};
use crate::paint::{paint, painted, Tint};
use crate::text::{elevated, join, joined, with_sudo};
use vstd::prelude::*;

verus! {

/// What leads from a source to a target.
pub open spec fn arrow() -> Seq<char> {
    " -> "@
}

/// What stands for the source of a rendered template.
pub open spec fn template_mark() -> Seq<char> {
    "<template>"@
}

impl ChangeView {
    /// The text that shows the change: the manager and its packages for a
    /// package change, the source and the target for a file, the command
    /// for a command.
    pub open spec fn label(self) -> Seq<char> {
        match self {
            ChangeView::AddPackage { manager, packages }
            | ChangeView::RemovePackage { manager, packages } => manager + ": "@ + joined(
                packages,
                ", "@,
            ),
            ChangeView::CopyFile(file, target) => file.source + arrow() + target,
            ChangeView::RawCommand { command, .. } => command,
        }
    }

    /// The colour that shows the kind of the change.
    pub open spec fn tint(self) -> Tint {
        match self {
            ChangeView::AddPackage { .. } => Tint::Green,
            ChangeView::RemovePackage { .. } => Tint::Red,
            ChangeView::CopyFile(..) => Tint::Purple,
            ChangeView::RawCommand { .. } => Tint::Cyan,
        }
    }
}

impl ActionView {
    /// The text that shows the action: the command line as it is run, the
    /// source and the target of a copy, the target of a stored template.
    pub open spec fn label(self) -> Seq<char> {
        match self {
            ActionView::Run { command, sudo } => elevated(command, sudo),
            ActionView::Copy(source, target) | ActionView::CopySudo(source, target) => source
                + arrow() + target,
            ActionView::StoreFile(_, target) => template_mark() + arrow() + target,
        }
    }

    /// The colour that shows the kind of the action.
    pub open spec fn tint(self) -> Tint {
        match self {
            ActionView::Run { .. } => Tint::Yellow,
            _ => Tint::Purple,
        }
    }
}

/// Builds `source`, the arrow and `target` in a row.
fn link(source: &str, target: &str) -> (text: String)
    ensures
        text@ == source@ + arrow() + target@,
{
    String::from_str(source).concat(" -> ").concat(target)
}

impl Change {
    /// The text that shows the change.
    pub fn label(&self) -> (text: String)
        ensures
            text@ == self@.label(),
    {
        match self {
            Change::AddPackage { manager, packages }
            | Change::RemovePackage { manager, packages } => {
                let names = join(packages, ", ");
                String::from_str(manager.as_str()).concat(": ").concat(names.as_str())
            },
            Change::CopyFile(file, target) => link(file.source.as_str(), target.as_str()),
            Change::RawCommand { command, .. } => command.clone(),
        }
    }

    /// The colour that shows the kind of the change.
    pub fn tint(&self) -> (tint: Tint)
        ensures
            tint == self@.tint(),
    {
        match self {
            Change::AddPackage { .. } => Tint::Green,
            Change::RemovePackage { .. } => Tint::Red,
            Change::CopyFile(..) => Tint::Purple,
            Change::RawCommand { .. } => Tint::Cyan,
        }
    }

    /// The change as it is shown on the terminal: its label in its colour.
    pub fn render(&self) -> (shown: colored::ColoredString)
        ensures
            shown == painted(self@.label(), self@.tint()),
    {
        paint(self.label().as_str(), self.tint())
    }
}

impl Action {
    /// The text that shows the action.
    pub fn label(&self) -> (text: String)
        ensures
            text@ == self@.label(),
    {
        match self {
            Action::Run { command, sudo } => with_sudo(command.as_str(), *sudo),
            Action::Copy(source, target) | Action::CopySudo(source, target) => link(
                source.as_str(),
                target.as_str(),
            ),
            Action::StoreFile(_, target) => link("<template>", target.as_str()),
        }
    }

    /// The colour that shows the kind of the action.
    pub fn tint(&self) -> (tint: Tint)
        ensures
            tint == self@.tint(),
    {
        match self {
            Action::Run { .. } => Tint::Yellow,
            _ => Tint::Purple,
        }
    }

    /// The action as it is shown on the terminal: its label in its colour.
    pub fn render(&self) -> (shown: colored::ColoredString)
        ensures
            shown == painted(self@.label(), self@.tint()),
    {
        paint(self.label().as_str(), self.tint())
    }
}

} // verus!
