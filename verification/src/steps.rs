//! The steps by which an action is carried out.

use crate::action::{Action, ActionView};
use crate::text::{elevated, with_sudo};
use vstd::prelude::*;

verus! {

/// One operation on processes or on the file system.
#[derive(Debug)]
pub enum Step {
    /// Run the line in a shell and wait for it.
    Shell { line: String },
    /// Create the directory at `path` with all that leads to it.
    MakeDirs { path: String, sudo: bool },
    /// Create the directory that holds `path`, with all that leads to it.
    MakeParentDirs { path: String, sudo: bool },
    /// Copy the file at `source` to `target`.
    CopyFile { source: String, target: String, sudo: bool },
    /// Copy what the directory at `source` holds into the directory at
    /// `target`, over what is there.
    CopyTree { source: String, target: String, sudo: bool },
    /// Write `text` to the file at `path`.
    Write { path: String, text: String },
}

/// A step as plain values.
pub enum StepView {
    Shell { line: Seq<char> },
    MakeDirs { path: Seq<char>, sudo: bool },
    MakeParentDirs { path: Seq<char>, sudo: bool },
    CopyFile { source: Seq<char>, target: Seq<char>, sudo: bool },
    CopyTree { source: Seq<char>, target: Seq<char>, sudo: bool },
    Write { path: Seq<char>, text: Seq<char> },
}

impl View for Step {
    type V = StepView;

    open spec fn view(&self) -> StepView {
        match self {
            Step::Shell { line } => StepView::Shell { line: line@ },
            Step::MakeDirs { path, sudo } => StepView::MakeDirs { path: path@, sudo: *sudo },
            Step::MakeParentDirs { path, sudo } => StepView::MakeParentDirs {
                path: path@,
                sudo: *sudo,
            },
            Step::CopyFile { source, target, sudo } => StepView::CopyFile {
                source: source@,
                target: target@,
                sudo: *sudo,
            },
            Step::CopyTree { source, target, sudo } => StepView::CopyTree {
                source: source@,
                target: target@,
                sudo: *sudo,
            },
            Step::Write { path, text } => StepView::Write { path: path@, text: text@ },
        }
    }
}

/// The views of `steps`, in their order.
pub open spec fn step_views(steps: Seq<Step>) -> Seq<StepView> {
    Seq::new(steps.len(), |i: int| steps[i]@)
}

/// The steps of a copy: a directory is copied into the target, which is
/// created first; a file is copied to the target once the directory that
/// holds the target is there.
pub open spec fn copy_steps(
    source: Seq<char>,
    target: Seq<char>,
    source_is_dir: bool,
    sudo: bool,
) -> Seq<StepView> {
    if source_is_dir {
        seq![StepView::MakeDirs { path: target, sudo }, StepView::CopyTree { source, target, sudo }]
    } else {
        seq![
            StepView::MakeParentDirs { path: target, sudo },
            StepView::CopyFile { source, target, sudo },
        ]
    }
}

impl ActionView {
    /// The steps that carry the action out, `source_is_dir` saying whether
    /// the source of a copy is a directory. A command runs in a shell,
    /// behind the elevation marker where it is elevated. A stored text is
    /// written once the directory that holds its target is there.
    pub open spec fn steps(self, source_is_dir: bool) -> Seq<StepView> {
        match self {
            ActionView::Run { command, sudo } => seq![
                StepView::Shell { line: elevated(command, sudo) },
            ],
            ActionView::Copy(source, target) => copy_steps(source, target, source_is_dir, false),
            ActionView::CopySudo(source, target) => copy_steps(source, target, source_is_dir, true),
            ActionView::StoreFile(text, target) => seq![
                StepView::MakeParentDirs { path: target, sudo: false },
                StepView::Write { path: target, text },
            ],
        }
    }

    /// The source of the copy that the action makes, of which the steps
    /// have to know whether it is a directory.
    pub open spec fn copy_source(self) -> Option<Seq<char>> {
        match self {
            ActionView::Copy(source, _) | ActionView::CopySudo(source, _) => Some(source),
            _ => None,
        }
    }
}

/// Builds the steps of a copy.
fn copy(source: &String, target: &String, source_is_dir: bool, sudo: bool) -> (steps: Vec<Step>)
    ensures
        step_views(steps@) == copy_steps(source@, target@, source_is_dir, sudo),
{
    let mut steps: Vec<Step> = Vec::new();
    if source_is_dir {
        steps.push(Step::MakeDirs { path: target.clone(), sudo });
        steps.push(Step::CopyTree { source: source.clone(), target: target.clone(), sudo });
    } else {
        steps.push(Step::MakeParentDirs { path: target.clone(), sudo });
        steps.push(Step::CopyFile { source: source.clone(), target: target.clone(), sudo });
    }
    assert(step_views(steps@) =~= copy_steps(source@, target@, source_is_dir, sudo));
    steps
}

impl Action {
    /// The source of the copy that the action makes, where it makes one.
    pub fn copy_source(&self) -> (source: Option<&String>)
        ensures
            match source {
                Some(path) => self@.copy_source() == Some(path@),
                None => self@.copy_source() is None,
            },
    {
        match self {
            Action::Copy(source, _) | Action::CopySudo(source, _) => Some(source),
            _ => None,
        }
    }

    /// The steps that carry the action out, in their order.
    /// `source_is_dir` says whether the source of a copy is a directory; for
    /// other actions it has no weight.
    pub fn steps(&self, source_is_dir: bool) -> (steps: Vec<Step>)
        ensures
            step_views(steps@) == self@.steps(source_is_dir),
    {
        match self {
            Action::Run { command, sudo } => {
                let mut steps: Vec<Step> = Vec::new();
                steps.push(Step::Shell { line: with_sudo(command.as_str(), *sudo) });
                assert(step_views(steps@) =~= self@.steps(source_is_dir));
                steps
            },
            Action::Copy(source, target) => copy(source, target, source_is_dir, false),
            Action::CopySudo(source, target) => copy(source, target, source_is_dir, true),
            Action::StoreFile(text, target) => {
                let mut steps: Vec<Step> = Vec::new();
                steps.push(Step::MakeParentDirs { path: target.clone(), sudo: false });
                steps.push(Step::Write { path: target.clone(), text: text.clone() });
                assert(step_views(steps@) =~= self@.steps(source_is_dir));
                steps
            },
        }
    }
}

} // verus!
