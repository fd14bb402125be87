//! Changes: what reconciliation asks for, before it is resolved to concrete
//! operations.

use crate::config::{Config, ConfigView, File, FileView};
use crate::strmap::{lemma_deep, lookup};
use crate::text::clone_texts;
use vstd::prelude::*;

verus! {

/// A needed change of the machine's state.
#[derive(Debug)]
pub enum Change {
    /// Install `packages` with `manager`.
    AddPackage { manager: String, packages: Vec<String> },
    /// Uninstall `packages` with `manager`.
    RemovePackage { manager: String, packages: Vec<String> },
    /// Place the file at the resolved target path.
    CopyFile(File, String),
    /// Run `command`.
    RawCommand { command: String, priority: u8 },
}

/// A change as plain values.
pub enum ChangeView {
    AddPackage { manager: Seq<char>, packages: Seq<Seq<char>> },
    RemovePackage { manager: Seq<char>, packages: Seq<Seq<char>> },
    CopyFile(FileView, Seq<char>),
    RawCommand { command: Seq<char>, priority: u8 },
}

impl View for Change {
    type V = ChangeView;

    open spec fn view(&self) -> ChangeView {
        match self {
            Change::AddPackage { manager, packages } => ChangeView::AddPackage {
                manager: manager@,
                packages: packages.deep_view(),
            },
            Change::RemovePackage { manager, packages } => ChangeView::RemovePackage {
                manager: manager@,
                packages: packages.deep_view(),
            },
            Change::CopyFile(file, target) => ChangeView::CopyFile(file@, target@),
            Change::RawCommand { command, priority } => ChangeView::RawCommand {
                command: command@,
                priority: *priority,
            },
        }
    }
}

/// The views of `changes`, in their order.
pub open spec fn change_views(changes: Seq<Change>) -> Seq<ChangeView> {
    Seq::new(changes.len(), |i: int| changes[i]@)
}

/// Why a change cannot be resolved against a tree.
#[derive(Debug)]
pub enum ConfigError {
    /// The change names a manager that the tree does not hold.
    ManagerNotFound { manager: String },
    /// The file is a template and asks for elevated privilege.
    SudoTemplate { source: String },
    /// The file is a template and no outcome of a rendering was handed in.
    NotRendered { source: String },
    /// The file is a template and rendering it failed with `message`.
    Render { source: String, message: String },
}

/// A resolution error as plain values.
pub enum ConfigErrorView {
    ManagerNotFound { manager: Seq<char> },
    SudoTemplate { source: Seq<char> },
    NotRendered { source: Seq<char> },
    Render { source: Seq<char>, message: Seq<char> },
}

impl View for ConfigError {
    type V = ConfigErrorView;

    open spec fn view(&self) -> ConfigErrorView {
        match self {
            ConfigError::ManagerNotFound { manager } => ConfigErrorView::ManagerNotFound {
                manager: manager@,
            },
            ConfigError::SudoTemplate { source } => ConfigErrorView::SudoTemplate {
                source: source@,
            },
            ConfigError::NotRendered { source } => ConfigErrorView::NotRendered { source: source@ },
            ConfigError::Render { source, message } => ConfigErrorView::Render {
                source: source@,
                message: message@,
            },
        }
    }
}

impl ChangeView {
    /// The priority of the change against `config`: that of the named
    /// manager for package changes, which have none where the tree does not
    /// hold the manager; the change's own for files and commands.
    pub open spec fn priority(self, config: ConfigView) -> Option<u8> {
        match self {
            ChangeView::AddPackage { manager, .. } | ChangeView::RemovePackage { manager, .. } => {
                match lookup(config.managers, manager) {
                    Some(found) => Some(found.priority),
                    None => None,
                }
            },
            ChangeView::CopyFile(file, _) => Some(file.priority),
            ChangeView::RawCommand { priority, .. } => Some(priority),
        }
    }

    /// The manager that a package change names.
    pub open spec fn manager(self) -> Option<Seq<char>> {
        match self {
            ChangeView::AddPackage { manager, .. } | ChangeView::RemovePackage { manager, .. } => {
                Some(manager)
            },
            _ => None,
        }
    }
}

impl Clone for Change {
    fn clone(&self) -> (copy: Self)
        ensures
            copy@ == self@,
    {
        match self {
            Change::AddPackage { manager, packages } => Change::AddPackage {
                manager: manager.clone(),
                packages: clone_texts(packages),
            },
            Change::RemovePackage { manager, packages } => Change::RemovePackage {
                manager: manager.clone(),
                packages: clone_texts(packages),
            },
            Change::CopyFile(file, target) => Change::CopyFile(file.clone(), target.clone()),
            Change::RawCommand { command, priority } => Change::RawCommand {
                command: command.clone(),
                priority: *priority,
            },
        }
    }
}

impl Change {
    /// The priority by which the change is ordered. Package changes take
    /// the priority of their manager in `config` and fail where `config`
    /// does not hold the manager; file and command changes carry their own.
    pub fn priority(&self, config: &Config) -> (found: Result<u8, ConfigError>)
        ensures
            match found {
                Ok(priority) => self@.priority(config@) == Some(priority),
                Err(error) => self@.priority(config@) is None && self@.manager() is Some
                    && error@ == (ConfigErrorView::ManagerNotFound {
                    manager: self@.manager()->0,
                }),
            },
    {
        match self {
            Change::AddPackage { manager, .. } | Change::RemovePackage { manager, .. } => {
                proof {
                    use_type_invariant(&config.managers);
                    lemma_deep(config.managers.entries());
                }
                match config.managers.get(manager.as_str()) {
                    Some(found) => Ok(found.priority),
                    None => Err(ConfigError::ManagerNotFound { manager: manager.clone() }),
                }
            },
            Change::CopyFile(file, _) => Ok(file.priority),
            Change::RawCommand { priority, .. } => Ok(*priority),
        }
    }
}

} // verus!
