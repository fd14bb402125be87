//! Actions: the concrete operations that a change compiles to.

use crate::change::{Change, ChangeView, ConfigError, ConfigErrorView};
use crate::config::{text_of, Config, ConfigView, File, Manager, ManagerView};
use crate::strmap::{lemma_deep, lookup};
use crate::text::{is_template, is_template_path, join, joined, substitute, substituted};
use vstd::prelude::*;

verus! {

/// An operation that can be carried out as it stands.
#[derive(Debug)]
pub enum Action {
    /// Run a shell command, elevated where `sudo` is set.
    Run { command: String, sudo: bool },
    /// Copy the file or directory at the first path to the second.
    Copy(String, String),
    /// The same copy with elevated privilege.
    CopySudo(String, String),
    /// Write the text to the path.
    StoreFile(String, String),
}

/// An action as plain values.
pub enum ActionView {
    Run { command: Seq<char>, sudo: bool },
    Copy(Seq<char>, Seq<char>),
    CopySudo(Seq<char>, Seq<char>),
    StoreFile(Seq<char>, Seq<char>),
}

impl View for Action {
    type V = ActionView;

    open spec fn view(&self) -> ActionView {
        match self {
            Action::Run { command, sudo } => ActionView::Run { command: command@, sudo: *sudo },
            Action::Copy(source, target) => ActionView::Copy(source@, target@),
            Action::CopySudo(source, target) => ActionView::CopySudo(source@, target@),
            Action::StoreFile(text, target) => ActionView::StoreFile(text@, target@),
        }
    }
}

/// The views of `actions`, in their order.
pub open spec fn action_views(actions: Seq<Action>) -> Seq<ActionView> {
    Seq::new(actions.len(), |i: int| actions[i]@)
}

/// The command lines that apply the template `command` to `packages`: one
/// line with all names joined by `sep` where `sep` is not empty, else one
/// line for each package.
pub open spec fn invocations(
    command: Seq<char>,
    packages: Seq<Seq<char>>,
    sep: Seq<char>,
) -> Seq<Seq<char>> {
    if sep.len() > 0 {
        seq![substituted(command, joined(packages, sep))]
    } else {
        Seq::new(packages.len(), |i: int| substituted(command, packages[i]))
    }
}

/// The actions that run the template `command` of `manager` on `packages`.
pub open spec fn package_actions(
    packages: Seq<Seq<char>>,
    manager: ManagerView,
    command: Seq<char>,
) -> Seq<ActionView> {
    let lines = invocations(command, packages, manager.seperator);
    Seq::new(lines.len(), |i: int| ActionView::Run { command: lines[i], sudo: manager.sudo })
}

/// The action that runs a file's hook, if it has one.
pub open spec fn post_hook_actions(hook: Option<Seq<char>>) -> Seq<ActionView> {
    match hook {
        Some(command) => seq![ActionView::Run { command, sudo: false }],
        None => Seq::empty(),
    }
}

impl ChangeView {
    /// The source path of the template that has to be rendered before the
    /// change can be compiled: that of a file change whose source is a
    /// template and which asks for no privilege.
    pub open spec fn template_source(self) -> Option<Seq<char>> {
        match self {
            ChangeView::CopyFile(file, _) => if is_template_path(file.source) && !file.sudo {
                Some(file.source)
            } else {
                None
            },
            _ => None,
        }
    }

    /// The actions that a package change compiles to, `command` being the
    /// manager's template for it.
    pub open spec fn package_result(
        manager: Seq<char>,
        packages: Seq<Seq<char>>,
        config: ConfigView,
        adding: bool,
    ) -> Result<Seq<ActionView>, ConfigErrorView> {
        match lookup(config.managers, manager) {
            None => Err(ConfigErrorView::ManagerNotFound { manager }),
            Some(found) => match (if adding {
                found.add
            } else {
                found.remove
            }) {
                None => Ok(Seq::empty()),
                Some(command) => Ok(package_actions(packages, found, command)),
            },
        }
    }

    /// What the change compiles to against `config`, `rendered` being the
    /// outcome of rendering its template, where rendering was tried: the
    /// rendered text, or the message that rendering failed with.
    ///
    /// A package change runs the manager's command on its packages, and
    /// nothing where the manager has no such command; it fails where the
    /// tree does not hold the manager. A command change runs its command
    /// without privilege. A file change copies the source to the target,
    /// with privilege where the file asks for it; a template is stored as
    /// its rendered text instead, and fails where it asks for privilege,
    /// where rendering was not tried and where rendering failed. The
    /// file's hook runs after the file is placed.
    pub open spec fn actions(
        self,
        config: ConfigView,
        rendered: Option<Result<Seq<char>, Seq<char>>>,
    ) -> Result<Seq<ActionView>, ConfigErrorView> {
        match self {
            ChangeView::AddPackage { manager, packages } => Self::package_result(
                manager,
                packages,
                config,
                true,
            ),
            ChangeView::RemovePackage { manager, packages } => Self::package_result(
                manager,
                packages,
                config,
                false,
            ),
            ChangeView::RawCommand { command, .. } => Ok(
                seq![ActionView::Run { command, sudo: false }],
            ),
            ChangeView::CopyFile(file, target) => {
                if is_template_path(file.source) {
                    if file.sudo {
                        Err(ConfigErrorView::SudoTemplate { source: file.source })
                    } else {
                        match rendered {
                            None => Err(ConfigErrorView::NotRendered { source: file.source }),
                            Some(Err(message)) => Err(
                                ConfigErrorView::Render { source: file.source, message },
                            ),
                            Some(Ok(text)) => Ok(
                                seq![ActionView::StoreFile(text, target)] + post_hook_actions(
                                    file.post_hook,
                                ),
                            ),
                        }
                    }
                } else if file.sudo {
                    Ok(
                        seq![ActionView::CopySudo(file.source, target)] + post_hook_actions(
                            file.post_hook,
                        ),
                    )
                } else {
                    Ok(
                        seq![ActionView::Copy(file.source, target)] + post_hook_actions(
                            file.post_hook,
                        ),
                    )
                }
            },
        }
    }
}

/// Builds the command lines that apply the template `command` to
/// `packages`.
pub fn invoke(command: &str, packages: &Vec<String>, sep: &str) -> (lines: Vec<String>)
    ensures
        lines.deep_view() == invocations(command@, packages.deep_view(), sep@),
{
    let mut lines: Vec<String> = Vec::new();
    if !sep.is_empty() {
        let args = join(packages, sep);
        lines.push(substitute(command, args.as_str()));
        assert(lines.deep_view() =~= invocations(command@, packages.deep_view(), sep@));
    } else {
        let ghost names = packages.deep_view();
        let mut i: usize = 0;
        while i < packages.len()
            invariant
                i <= packages.len(),
                names == packages.deep_view(),
                lines.len() == i,
                forall|j: int| 0 <= j < i ==> (#[trigger] lines[j])@ == substituted(command@, names[j]),
            decreases packages.len() - i,
        {
            lines.push(substitute(command, packages[i].as_str()));
            i += 1;
        }
        assert(lines.deep_view() =~= invocations(command@, packages.deep_view(), sep@));
    }
    lines
}

/// Builds the actions that run the template `command` of `manager` on
/// `packages`: one joined invocation where the manager has a separator,
/// else one invocation for each package; each with the manager's privilege.
pub fn construct_command(packages: Vec<String>, manager: &Manager, command: &str) -> (actions: Vec<
    Action,
>)
    ensures
        action_views(actions@) == package_actions(packages.deep_view(), manager@, command@),
{
    let lines = invoke(command, &packages, manager.seperator.as_str());
    let ghost texts = lines.deep_view();
    let mut actions: Vec<Action> = Vec::new();
    for line in it: lines.into_iter()
        invariant
            texts.len() == it.seq().len(),
            forall|j: int| 0 <= j < texts.len() ==> (#[trigger] it.seq()[j])@ == texts[j],
            actions.len() == it.index(),
            forall|j: int|
                0 <= j < it.index() ==> (#[trigger] actions[j])@ == (ActionView::Run {
                    command: texts[j],
                    sudo: manager.sudo,
                }),
    {
        actions.push(Action::Run { command: line, sudo: manager.sudo });
    }
    assert(action_views(actions@) =~= package_actions(packages.deep_view(), manager@, command@));
    actions
}

/// The action that runs a file's hook, if it has one.
fn post_hook(actions: &mut Vec<Action>, hook: Option<String>)
    ensures
        action_views(final(actions)@) == action_views(old(actions)@) + post_hook_actions(
            text_of(hook),
        ),
{
    let ghost before = action_views(actions@);
    match hook {
        Some(command) => {
            actions.push(Action::Run { command, sudo: false });
            assert(action_views(actions@) =~= before + post_hook_actions(text_of(hook)));
        },
        None => {
            assert(action_views(actions@) =~= before + post_hook_actions(text_of(hook)));
        },
    }
}

impl Change {
    /// The source path of the template that has to be rendered before the
    /// change is compiled, where there is one.
    pub fn template_source(&self) -> (source: Option<&String>)
        ensures
            match source {
                Some(path) => self@.template_source() == Some(path@),
                None => self@.template_source() is None,
            },
    {
        match self {
            Change::CopyFile(file, _) => {
                if is_template(file.source.as_str()) && !file.sudo {
                    Some(&file.source)
                } else {
                    None
                }
            },
            _ => None,
        }
    }

    /// Compiles the change against `config` into actions. `rendered` is the
    /// outcome of rendering the change's template with the variables of
    /// `config`, for a change that has a template to render: the rendered
    /// text, or the message that rendering failed with.
    pub fn action(self, config: &Config, rendered: Option<Result<String, String>>) -> (compiled:
        Result<Vec<Action>, ConfigError>)
        ensures
            compiles_to(compiled, self@.actions(config@, outcome_of(rendered))),
    {
        proof {
            use_type_invariant(&config.managers);
            lemma_deep(config.managers.entries());
        }
        match self {
            Change::AddPackage { manager, packages } => {
                match config.managers.get(manager.as_str()) {
                    None => Err(ConfigError::ManagerNotFound { manager }),
                    Some(found) => match &found.add {
                        None => {
                            let actions: Vec<Action> = Vec::new();
                            assert(action_views(actions@) =~= Seq::empty());
                            Ok(actions)
                        },
                        Some(command) => Ok(construct_command(packages, found, command.as_str())),
                    },
                }
            },
            Change::RemovePackage { manager, packages } => {
                match config.managers.get(manager.as_str()) {
                    None => Err(ConfigError::ManagerNotFound { manager }),
                    Some(found) => match &found.remove {
                        None => {
                            let actions: Vec<Action> = Vec::new();
                            assert(action_views(actions@) =~= Seq::empty());
                            Ok(actions)
                        },
                        Some(command) => Ok(construct_command(packages, found, command.as_str())),
                    },
                }
            },
            Change::RawCommand { command, .. } => {
                let mut actions: Vec<Action> = Vec::new();
                actions.push(Action::Run { command, sudo: false });
                assert(action_views(actions@) =~= seq![
                    ActionView::Run { command: command@, sudo: false },
                ]);
                Ok(actions)
            },
            Change::CopyFile(file, target) => {
                let File { source, priority: _, post_hook: hook, sudo } = file;
                let mut actions: Vec<Action> = Vec::new();
                if is_template(source.as_str()) {
                    if sudo {
                        return Err(ConfigError::SudoTemplate { source });
                    }
                    match rendered {
                        None => {
                            return Err(ConfigError::NotRendered { source });
                        },
                        Some(Err(message)) => {
                            return Err(ConfigError::Render { source, message });
                        },
                        Some(Ok(text)) => {
                            actions.push(Action::StoreFile(text, target));
                            assert(action_views(actions@) =~= seq![
                                ActionView::StoreFile(text@, target@),
                            ]);
                        },
                    }
                } else if sudo {
                    actions.push(Action::CopySudo(source, target));
                    assert(action_views(actions@) =~= seq![
                        ActionView::CopySudo(source@, target@),
                    ]);
                } else {
                    actions.push(Action::Copy(source, target));
                    assert(action_views(actions@) =~= seq![ActionView::Copy(source@, target@)]);
                }
                post_hook(&mut actions, hook);
                Ok(actions)
            },
        }
    }
}

/// The outcome of a rendering as plain values.
pub open spec fn outcome_of(rendered: Option<Result<String, String>>) -> Option<
    Result<Seq<char>, Seq<char>>,
> {
    match rendered {
        None => None,
        Some(Ok(text)) => Some(Ok(text@)),
        Some(Err(message)) => Some(Err(message@)),
    }
}

/// Whether `compiled` is `expected`, as plain values.
pub open spec fn compiles_to(
    compiled: Result<Vec<Action>, ConfigError>,
    expected: Result<Seq<ActionView>, ConfigErrorView>,
) -> bool {
    match compiled {
        Ok(actions) => expected == Ok::<Seq<ActionView>, ConfigErrorView>(action_views(actions@)),
        Err(error) => expected == Err::<Seq<ActionView>, ConfigErrorView>(error@),
    }
}

/// A file that asks for privilege and whose source is a template compiles
/// to an error, whatever the tree and whatever was rendered.
pub proof fn lemma_sudo_template_fails(
    file: crate::config::FileView,
    target: Seq<char>,
    config: ConfigView,
    rendered: Option<Result<Seq<char>, Seq<char>>>,
)
    requires
        file.sudo,
        is_template_path(file.source),
    ensures
        ChangeView::CopyFile(file, target).actions(config, rendered) == Err::<
            Seq<ActionView>,
            ConfigErrorView,
        >(ConfigErrorView::SudoTemplate { source: file.source }),
{
}

} // verus!
